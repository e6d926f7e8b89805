use kheap::address::PA;
use kheap::heap::KHeap;
use kheap::layout::Layout;
use kheap::params::HeapConfig;

const PAGE_OFFSET: usize = 0xffff_0000_0000_0000;
const RAM_BASE: usize = 0x4000_0000;

fn heap(min_shift: u32, max_shift: u32, page_shift: u32, pages: usize, cpus: usize) -> KHeap {
    let config = HeapConfig::new(min_shift, max_shift, page_shift).unwrap();
    let mut heap =
        KHeap::new(config, PAGE_OFFSET, PA::from_value(RAM_BASE), pages << page_shift, cpus)
            .unwrap();
    for cpu in 0..cpus {
        heap.init_for_this_cpu(cpu);
    }
    heap
}

fn layout(size: usize, align: usize) -> Layout {
    Layout::from_size_align(size, align).unwrap()
}

fn take(heap: &mut KHeap, cpu: usize, l: Layout) -> usize {
    assert!(heap.is_servable(cpu, l));
    heap.allocate(cpu, l)
}

#[test]
fn smallest_class_cycle() {
    let mut h = heap(3, 12, 13, 64, 1);
    let l = layout(8, 8);
    let mut first = Vec::new();
    for _ in 0..64 {
        let p = take(&mut h, 0, l);
        assert_ne!(p, 0);
        assert_eq!(p % 8, 0);
        assert!(!first.contains(&p));
        first.push(p);
    }
    for p in first.iter() {
        h.dealloc(0, *p, l);
    }
    assert_eq!(h.cpu(0).cached_count(l), 32);
    let locks = h.locks_taken();
    let mut second = Vec::new();
    for _ in 0..32 {
        second.push(take(&mut h, 0, l));
    }
    // The first 32 come from the magazine, the one freed last first: the
    // sixteen freed since the magazine was last drained, then what the drain
    // left in it.
    assert_eq!(h.locks_taken(), locks);
    for i in 0..16 {
        assert_eq!(second[i], first[63 - i]);
    }
    for i in 0..14 {
        assert_eq!(second[16 + i], first[13 - i]);
    }
    assert!(!first.contains(&second[30]) && !first.contains(&second[31]));
    for _ in 0..32 {
        second.push(take(&mut h, 0, l));
    }
    for i in 0..64 {
        for j in 0..i {
            assert_ne!(second[i], second[j]);
        }
        assert_eq!(second[i] % 8, 0);
    }
}

#[test]
fn cross_class_independence() {
    let mut h = heap(3, 11, 12, 64, 1);
    let a = take(&mut h, 0, layout(16, 16));
    let b = take(&mut h, 0, layout(128, 16));
    let c = take(&mut h, 0, layout(16, 16));
    let page = |p: usize| p & !(4096 - 1);
    assert_ne!(a, c);
    assert_eq!(page(a), page(c));
    assert_ne!(page(b), page(a));
    assert_eq!(a % 16, 0);
    assert_eq!(b % 128, 0);
}

#[test]
fn slab_growth() {
    let mut h = heap(3, 11, 12, 64, 1);
    let l = layout(64, 64);
    let class = h.parameters().classify(l).unwrap();
    assert_eq!(class, 3);
    for i in 0..(4096 / 64) {
        take(&mut h, 0, l);
        assert_eq!(h.slab_allocator().num_pages(class), 1, "after {} allocations", i + 1);
    }
    take(&mut h, 0, l);
    assert_eq!(h.slab_allocator().num_pages(class), 2);
}

#[test]
fn huge_bypass() {
    let mut h = heap(3, 11, 12, 64, 1);
    let l = layout(5 * 4096, 4096);
    assert_eq!(h.parameters().classify(l), None);
    assert_eq!(h.calculate_huge_order(l), 3);
    let locks = h.locks_taken();
    let p = take(&mut h, 0, l);
    assert_ne!(p, 0);
    assert_eq!(p % 4096, 0);
    assert_eq!(h.locks_taken(), locks);
    let pa = p - PAGE_OFFSET;
    for i in 0..8 {
        assert!(h.frame_allocator().is_frame_allocated(PA::from_value(pa + i * 4096)));
    }
    assert!(!h.frame_allocator().is_frame_allocated(PA::from_value(pa + 8 * 4096)));
    h.dealloc(0, p, l);
    for i in 0..8 {
        assert!(!h.frame_allocator().is_frame_allocated(PA::from_value(pa + i * 4096)));
    }
    assert!(h.frame_allocator().has_frames(3));
    // The same run serves the next request of that order.
    assert_eq!(take(&mut h, 0, l), p);
}

#[test]
fn multi_cpu_isolation() {
    let mut h = heap(3, 11, 12, 256, 2);
    let l = layout(32, 32);
    let mut held: [Vec<usize>; 2] = [Vec::new(), Vec::new()];
    let mut locks = [0usize; 2];
    for _ in 0..100 {
        for cpu in 0..2 {
            let other = h.cpu(1 - cpu).cached_count(l);
            let before = h.locks_taken();
            let p = take(&mut h, cpu, l);
            locks[cpu] += h.locks_taken() - before;
            assert_eq!(h.cpu(1 - cpu).cached_count(l), other);
            assert!(!held[0].contains(&p) && !held[1].contains(&p));
            held[cpu].push(p);
        }
    }
    assert_eq!(locks, [4, 4]);
    for _ in 0..100 {
        for cpu in 0..2 {
            let other = h.cpu(1 - cpu).cached_count(l);
            let before = h.locks_taken();
            let p = held[cpu].pop().unwrap();
            h.dealloc(cpu, p, l);
            locks[cpu] += h.locks_taken() - before;
            assert_eq!(h.cpu(1 - cpu).cached_count(l), other);
        }
    }
    // Four refills while allocating, six drains while freeing.
    assert_eq!(locks, [10, 10]);
}

#[test]
fn overflow_drain() {
    let mut h = heap(3, 11, 12, 64, 1);
    let l = layout(64, 64);
    let mut ptrs = Vec::new();
    for _ in 0..33 {
        ptrs.push(take(&mut h, 0, l));
    }
    assert_eq!(h.cpu(0).cached_count(l), 0);
    let locks = h.locks_taken();
    for p in ptrs.iter().take(32) {
        h.dealloc(0, *p, l);
    }
    assert_eq!(h.cpu(0).cached_count(l), 32);
    assert_eq!(h.locks_taken(), locks);
    h.dealloc(0, ptrs[32], l);
    assert_eq!(h.locks_taken(), locks + 1);
    assert_eq!(h.cpu(0).cached_count(l), 16);
    // The slab hands back what was drained, the last drained first, and
    // then the object that found the magazine full.
    for _ in 0..16 {
        take(&mut h, 0, l);
    }
    let class = h.parameters().classify(l).unwrap();
    assert!(!h.slab_allocator().is_exhausted(class));
    let next = take(&mut h, 0, l);
    assert_eq!(next, ptrs[16]);
}
