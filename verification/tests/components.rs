use kheap::address::{PageOffsetTranslator, PhysMemoryRegion, PA, VA};
use kheap::cache::{PtrCache, SlabCache};
use kheap::error::KernelError;
use kheap::frames::FrameAllocator;
use kheap::heap::{KHeap, PerCpuCache};
use kheap::layout::{is_power_of_two_usize, Layout};
use kheap::page::ClaimedPage;
use kheap::params::{ceil_log2_usize, pow2_usize, HeapConfig};
use kheap::slab::{SlabAllocator, SlabManager};

const PAGE: usize = 4096;
const OFFSET: usize = 0xffff_0000_0000_0000;
const BASE: usize = 0x8000_0000;

fn config() -> HeapConfig {
    HeapConfig::new(3, 11, 12).unwrap()
}

fn frames(pages: usize) -> FrameAllocator {
    FrameAllocator::new(PAGE, PA::from_value(BASE), pages * PAGE).unwrap()
}

#[test]
fn ceil_log2_values() {
    assert_eq!(ceil_log2_usize(0), 0);
    assert_eq!(ceil_log2_usize(1), 0);
    assert_eq!(ceil_log2_usize(2), 1);
    assert_eq!(ceil_log2_usize(3), 2);
    assert_eq!(ceil_log2_usize(4), 2);
    assert_eq!(ceil_log2_usize(5), 3);
    assert_eq!(ceil_log2_usize(4096), 12);
    assert_eq!(ceil_log2_usize(4097), 13);
    assert_eq!(ceil_log2_usize(usize::MAX), usize::BITS);
    assert_eq!(ceil_log2_usize((1 << 63) + 1), 64);
    assert_eq!(ceil_log2_usize(1 << 63), 63);
}

#[test]
fn pow2_values() {
    assert_eq!(pow2_usize(0), 1);
    assert_eq!(pow2_usize(12), 4096);
    assert_eq!(pow2_usize(30), 1 << 30);
}

#[test]
fn power_of_two_test() {
    assert!(!is_power_of_two_usize(0));
    assert!(is_power_of_two_usize(1));
    assert!(is_power_of_two_usize(2));
    assert!(!is_power_of_two_usize(3));
    assert!(is_power_of_two_usize(1 << 63));
    assert!(!is_power_of_two_usize((1 << 63) + 1));
    assert!(!is_power_of_two_usize(usize::MAX));
}

#[test]
fn config_is_validated() {
    assert!(HeapConfig::new(3, 11, 12).is_some());
    assert!(HeapConfig::new(3, 12, 13).is_some());
    // The smallest object must hold a pointer.
    assert!(HeapConfig::new(2, 11, 12).is_none());
    // The largest object is at most half a page.
    assert!(HeapConfig::new(3, 12, 12).is_none());
    assert!(HeapConfig::new(5, 4, 12).is_none());
    assert!(HeapConfig::new(3, 11, 31).is_none());
    // One magazine per class must fit in a page: 8 classes take 2112 bytes.
    assert!(HeapConfig::new(3, 10, 11).is_none());
    assert!(HeapConfig::new(4, 10, 11).is_some());
    let c = config();
    assert_eq!(c.min_shift(), 3);
    assert_eq!(c.max_shift(), 11);
    assert_eq!(c.page_shift(), 12);
    assert_eq!(c.page_size(), 4096);
    assert_eq!(c.num_classes(), 9);
    assert_eq!(c.object_size(0), 8);
    assert_eq!(c.object_size(8), 2048);
}

#[test]
fn layout_is_validated() {
    assert!(Layout::from_size_align(0, 1).is_some());
    assert!(Layout::from_size_align(24, 8).is_some());
    assert!(Layout::from_size_align(24, 0).is_none());
    assert!(Layout::from_size_align(24, 3).is_none());
    assert!(Layout::from_size_align(isize::MAX as usize, 1).is_some());
    assert!(Layout::from_size_align(isize::MAX as usize, 2).is_none());
    assert!(Layout::from_size_align(isize::MAX as usize + 1, 1).is_none());
    assert!(Layout::from_size_align(0, 1 << 63).is_some());
    assert!(Layout::from_size_align(1, 1 << 63).is_none());
    let l = Layout::from_size_align(24, 8).unwrap();
    assert_eq!((l.size(), l.align(), l.extent()), (24, 8, 24));
    let l = Layout::from_size_align(0, 1).unwrap();
    assert_eq!(l.extent(), 1);
    let l = Layout::from_size_align(4, 64).unwrap();
    assert_eq!(l.extent(), 64);
}

#[test]
fn classification() {
    let c = config();
    let class = |size, align| c.classify(Layout::from_size_align(size, align).unwrap());
    assert_eq!(class(0, 1), Some(0));
    assert_eq!(class(1, 1), Some(0));
    assert_eq!(class(8, 8), Some(0));
    assert_eq!(class(9, 1), Some(1));
    assert_eq!(class(16, 16), Some(1));
    assert_eq!(class(17, 8), Some(2));
    assert_eq!(class(1, 64), Some(3));
    assert_eq!(class(100, 16), Some(4));
    assert_eq!(class(2048, 8), Some(8));
    assert_eq!(class(2049, 8), None);
    assert_eq!(class(8, 4096), None);
    // Every class covers the layout.
    for size in 1..3000usize {
        let l = Layout::from_size_align(size, 8).unwrap();
        match c.classify(l) {
            Some(k) => {
                assert!(c.object_size(k) >= size);
                assert!(k == 0 || c.object_size(k - 1) < size);
            }
            None => assert!(size > 2048),
        }
    }
}

#[test]
fn addresses() {
    assert_eq!(PA::from_value(0x1234).value(), 0x1234);
    assert_eq!(VA::from_value(0x99).value(), 0x99);
    assert_eq!(PA::from_value(0x5123).to_pfn(PAGE).value(), 5);
    let t = PageOffsetTranslator::new(OFFSET);
    let va = t.pa_to_va(PA::from_value(0x4000));
    assert_eq!(va.value(), OFFSET + 0x4000);
    assert_eq!(t.va_to_pa(va), PA::from_value(0x4000));
    let r = PhysMemoryRegion::new(PA::from_value(0x4000), 0x2000);
    assert_eq!(r.start_address(), PA::from_value(0x4000));
    assert_eq!(r.size(), 0x2000);
}

#[test]
fn frame_allocator_bumps_and_reuses() {
    assert!(FrameAllocator::new(0, PA::from_value(BASE), PAGE).is_none());
    assert!(FrameAllocator::new(PAGE, PA::from_value(0), PAGE).is_none());
    assert!(FrameAllocator::new(PAGE, PA::from_value(BASE + 1), PAGE).is_none());
    assert!(FrameAllocator::new(PAGE, PA::from_value(BASE), usize::MAX).is_none());
    let mut f = frames(8);
    assert_eq!(f.page_size(), PAGE);
    assert_eq!(f.order_size(0), Some(PAGE));
    assert_eq!(f.order_size(3), Some(8 * PAGE));
    assert_eq!(f.order_size(60), None);
    assert!(f.has_frames(3));
    assert!(!f.has_frames(4));
    let a = f.alloc_frames(1).unwrap().leak();
    assert_eq!(a, PhysMemoryRegion::new(PA::from_value(BASE), 2 * PAGE));
    let b = f.alloc_frames(0).unwrap();
    assert_eq!(b.region(), PhysMemoryRegion::new(PA::from_value(BASE + 2 * PAGE), PAGE));
    let b = b.leak();
    assert!(f.is_frame_allocated(PA::from_value(BASE)));
    assert!(f.is_frame_allocated(PA::from_value(BASE + 3 * PAGE - 1)));
    assert!(!f.is_frame_allocated(PA::from_value(BASE + 3 * PAGE)));
    assert!(!f.is_frame_allocated(PA::from_value(BASE - 1)));
    // Five pages are left: no run of eight.
    assert!(f.alloc_frames(3).is_none());
    assert!(f.alloc_frames(2).is_some());
    assert!(f.alloc_frames(0).is_some());
    assert!(f.alloc_frames(0).is_none());
    assert!(!f.has_frames(0));
    // A run given back serves the next request of its size.
    f.alloc_from_region(a);
    assert!(!f.is_frame_allocated(PA::from_value(BASE)));
    assert!(!f.is_frame_allocated(PA::from_value(BASE + PAGE)));
    assert!(f.is_frame_allocated(PA::from_value(BASE + 2 * PAGE)));
    assert!(f.has_frames(1));
    assert!(!f.has_frames(0));
    f.alloc_from_region(b);
    assert!(f.has_frames(0));
    assert_eq!(f.alloc_frames(0).unwrap().leak(), b);
    assert_eq!(f.alloc_frames(1).unwrap().leak(), a);
    assert!(f.alloc_frames(1).is_none());
}

#[test]
fn claimed_page_is_zeroed() {
    let mut f = frames(2);
    let t = PageOffsetTranslator::new(OFFSET);
    let raw = ClaimedPage::allocate(&mut f, &t).unwrap();
    // What a page holds is not zero unless it is asked for.
    assert!(raw.as_slice().iter().any(|b| *b != 0));
    assert_eq!(raw.as_slice().len(), PAGE);
    let page = ClaimedPage::alloc_zeroed(&mut f, &t).unwrap();
    assert_eq!(page.as_slice().len(), PAGE);
    assert!(page.as_slice().iter().all(|b| *b == 0));
    assert_eq!(page.pa(), PA::from_value(BASE + PAGE));
    assert_eq!(page.va(), VA::from_value(OFFSET + BASE + PAGE));
    assert_eq!(page.as_ptr(), OFFSET + BASE + PAGE);
    assert_eq!(page.as_ptr_mut(), OFFSET + BASE + PAGE);
    assert_eq!(ClaimedPage::alloc_zeroed(&mut f, &t).unwrap_err(), KernelError::NoMemory);
    assert_eq!(ClaimedPage::allocate(&mut f, &t).unwrap_err(), KernelError::NoMemory);
    let pfn = page.leak();
    assert_eq!(pfn.value(), (BASE + PAGE) / PAGE);
    assert_eq!(pfn.pa(PAGE), PA::from_value(BASE + PAGE));
    assert!(f.is_frame_allocated(PA::from_value(BASE + PAGE)));
}

#[test]
fn magazine_capacity() {
    let mut m = PtrCache::default();
    assert!(m.is_empty() && !m.is_full());
    for i in 0..32 {
        assert_eq!(m.free(0x1000 + i * 8), Ok(()));
    }
    assert!(m.is_full() && !m.is_empty());
    assert_eq!(m.len(), 32);
    assert_eq!(m.free(0x9000), Err(0x9000));
    assert_eq!(m.len(), 32);
    assert_eq!(m.allocate(), Some(0x1000 + 31 * 8));
    assert_eq!(m.len(), 31);
}

#[test]
fn slab_carves_pages_lowest_first() {
    let mut f = frames(4);
    let t = PageOffsetTranslator::new(OFFSET);
    let mut slab = SlabManager::new(1024, PAGE);
    assert_eq!(slab.object_size(), 1024);
    assert!(slab.is_exhausted());
    assert_eq!(slab.try_alloc(), None);
    assert_eq!(slab.num_pages(), 0);
    let va = OFFSET + BASE;
    assert_eq!(slab.allocate(&mut f, &t), va);
    assert_eq!(slab.num_pages(), 1);
    assert_eq!(slab.page(0), va);
    assert_eq!(slab.try_alloc(), Some(va + 1024));
    assert_eq!(slab.try_alloc(), Some(va + 2048));
    slab.free(va + 1024);
    slab.free(va);
    // The free list is a stack.
    assert_eq!(slab.try_alloc(), Some(va));
    assert_eq!(slab.try_alloc(), Some(va + 1024));
    assert_eq!(slab.try_alloc(), Some(va + 3072));
    assert_eq!(slab.try_alloc(), None);
    assert!(slab.is_exhausted());
    assert_eq!(slab.num_pages(), 1);
    assert_eq!(slab.allocate(&mut f, &t), va + PAGE);
    assert_eq!(slab.num_pages(), 2);
    assert_eq!(slab.refill(&mut f, &t), va + 2 * PAGE);
    assert_eq!(slab.num_pages(), 3);
    slab.grow(va + 3 * PAGE);
    assert_eq!(slab.num_pages(), 4);
    assert_eq!(slab.try_alloc(), Some(va + 3 * PAGE));
}

#[test]
fn magazine_fills_and_drains() {
    let mut f = frames(4);
    let t = PageOffsetTranslator::new(OFFSET);
    let va = OFFSET + BASE;
    let mut slab = SlabManager::new(64, PAGE);
    let first = slab.allocate(&mut f, &t);
    assert_eq!(first, va);
    let mut m = PtrCache::new();
    m.fill_from(&mut slab);
    assert!(m.is_full());
    // The next free object of the slab is the one after those moved.
    assert_eq!(slab.try_alloc(), Some(va + 33 * 64));
    assert_eq!(m.allocate(), Some(va + 32 * 64));
    // A magazine that is full takes nothing more, and fills never grow a
    // slab.
    m.fill_from(&mut slab);
    assert_eq!(m.len(), 32);
    assert_eq!(m.allocate(), Some(va + 34 * 64));
    m.drain_into(&mut slab);
    assert_eq!(m.len(), 16);
    assert_eq!(m.allocate(), Some(va + 16 * 64));
    // What was drained comes back from the slab, lowest in the magazine
    // first.
    assert_eq!(slab.try_alloc(), Some(va + 17 * 64));
    let mut small = SlabManager::new(2048, PAGE);
    small.grow(va + PAGE);
    let mut m = PtrCache::new();
    m.fill_from(&mut small);
    assert_eq!(m.len(), 2);
    assert!(small.is_exhausted());
    assert_eq!(small.num_pages(), 1);
    m.drain_into(&mut small);
    assert_eq!(m.len(), 1);
    assert_eq!(small.try_alloc(), Some(va + PAGE + 2048));
}

#[test]
fn bundle_has_one_magazine_per_class() {
    let mut f = frames(2);
    let t = PageOffsetTranslator::new(OFFSET);
    let page = ClaimedPage::alloc_zeroed(&mut f, &t).unwrap();
    let mut bundle = SlabCache::from_page(page, config());
    assert_eq!(bundle.frame().value(), BASE / PAGE);
    let small = Layout::from_size_align(8, 8).unwrap();
    let big = Layout::from_size_align(2048, 8).unwrap();
    let huge = Layout::from_size_align(4096, 8).unwrap();
    assert!(bundle.get_cache(huge).is_none());
    assert!(bundle.peek_cache(huge).is_none());
    assert!(bundle.get_cache(small).unwrap().free(0x10).is_ok());
    assert!(bundle.get_cache(big).unwrap().is_empty());
    assert_eq!(bundle.peek_cache(small).unwrap().len(), 1);
    assert_eq!(bundle.get_cache(small).unwrap().allocate(), Some(0x10));
}

#[test]
fn slab_set_counts_locks() {
    let mut set = SlabAllocator::new(config());
    assert_eq!(set.locks_taken(), 0);
    let small = Layout::from_size_align(8, 8).unwrap();
    let huge = Layout::from_size_align(4096, 8).unwrap();
    assert_eq!(set.allocator_for_layout(small).unwrap().object_size(), 8);
    assert_eq!(set.locks_taken(), 1);
    assert!(set.allocator_for_layout(huge).is_none());
    assert_eq!(set.locks_taken(), 1);
    let largest = Layout::from_size_align(1500, 8).unwrap();
    assert_eq!(set.allocator_for_layout(largest).unwrap().object_size(), 2048);
    assert_eq!(set.locks_taken(), 2);
    assert!(set.is_exhausted(0));
    assert_eq!(set.num_pages(0), 0);
}

#[test]
fn per_cpu_state() {
    let mut cpu = PerCpuCache::new();
    assert!(!cpu.is_initialised());
    assert!(!cpu.interrupts_masked());
    let small = Layout::from_size_align(8, 8).unwrap();
    assert_eq!(cpu.cached_count(small), 0);
    let mut f = frames(2);
    let t = PageOffsetTranslator::new(OFFSET);
    let page = ClaimedPage::alloc_zeroed(&mut f, &t).unwrap();
    cpu.install(SlabCache::from_page(page, config()));
    assert!(cpu.is_initialised());
    let flags = cpu.get();
    assert!(!flags);
    assert!(cpu.interrupts_masked());
    // A nested section finds the mask set and leaves it set.
    let nested = cpu.get();
    assert!(nested);
    cpu.restore_interrupt_state(nested);
    assert!(cpu.interrupts_masked());
    cpu.restore_interrupt_state(flags);
    assert!(!cpu.interrupts_masked());
    assert!(cpu.cache_line(small).unwrap().free(0x40).is_ok());
    assert_eq!(cpu.cached_count(small), 1);
}

#[test]
fn heap_is_validated() {
    let c = config();
    assert!(KHeap::new(c, OFFSET, PA::from_value(BASE), 16 * PAGE, 2).is_some());
    assert!(KHeap::new(c, OFFSET, PA::from_value(0), 16 * PAGE, 2).is_none());
    assert!(KHeap::new(c, OFFSET, PA::from_value(BASE + 8), 16 * PAGE, 2).is_none());
    assert!(KHeap::new(c, OFFSET + 8, PA::from_value(BASE), 16 * PAGE, 2).is_none());
    assert!(KHeap::new(c, usize::MAX - PAGE + 1, PA::from_value(BASE), 16 * PAGE, 2).is_none());
    let h = KHeap::new(c, OFFSET, PA::from_value(BASE), 16 * PAGE, 2).unwrap();
    assert_eq!(h.num_cpus(), 2);
    assert_eq!(h.locks_taken(), 0);
    assert!(!h.cpu(0).is_initialised());
    let l = Layout::from_size_align(8, 8).unwrap();
    // No CPU is set up yet, and there is no CPU 2.
    assert!(!h.is_servable(0, l));
    assert!(!h.is_servable(2, l));
}

#[test]
fn heap_runs_out_of_pages() {
    let c = config();
    let mut h = KHeap::new(c, OFFSET, PA::from_value(BASE), 2 * PAGE, 1).unwrap();
    h.init_for_this_cpu(0);
    assert!(h.cpu(0).is_initialised());
    assert!(h.frame_allocator().is_frame_allocated(PA::from_value(BASE)));
    let l = Layout::from_size_align(2048, 8).unwrap();
    let huge = Layout::from_size_align(2 * PAGE, 8).unwrap();
    // One page is left: too little for a huge layout of two.
    assert!(h.is_servable(0, huge));
    assert_eq!(h.allocate(0, huge), 0);
    assert!(h.is_servable(0, l));
    let a = h.allocate(0, l);
    assert_eq!(a, OFFSET + BASE + PAGE);
    // The page's other object is in the magazine.
    assert_eq!(h.cpu(0).cached_count(l), 1);
    assert!(h.is_servable(0, l));
    let b = h.allocate(0, l);
    assert_eq!(b, a + 2048);
    // Magazine and slab are empty and no page is left.
    assert!(!h.is_servable(0, l));
    h.dealloc(0, a, l);
    assert!(h.is_servable(0, l));
    assert_eq!(h.allocate(0, l), a);
    assert!(!h.cpu(0).interrupts_masked());
}

#[test]
fn huge_orders() {
    let c = config();
    let h = KHeap::new(c, OFFSET, PA::from_value(BASE), 64 * PAGE, 1).unwrap();
    let order = |size, align| h.calculate_huge_order(Layout::from_size_align(size, align).unwrap());
    assert_eq!(order(0, 1), 0);
    assert_eq!(order(1, 1), 0);
    assert_eq!(order(PAGE, 1), 0);
    assert_eq!(order(PAGE + 1, 1), 1);
    assert_eq!(order(2 * PAGE, 1), 1);
    assert_eq!(order(2 * PAGE + 1, 1), 2);
    assert_eq!(order(5 * PAGE, PAGE), 3);
    assert_eq!(order(8 * PAGE, PAGE), 3);
    assert_eq!(order(8 * PAGE + 1, PAGE), 4);
    assert_eq!(order(8, 16 * PAGE), 4);
}

#[test]
fn live_objects_never_overlap() {
    let c = config();
    let mut h = KHeap::new(c, OFFSET, PA::from_value(BASE), 65536 * PAGE, 2).unwrap();
    h.init_for_this_cpu(0);
    h.init_for_this_cpu(1);
    let layouts = [(8, 8), (24, 8), (64, 64), (100, 4), (2048, 16), (3 * PAGE, PAGE), (1, 1)];
    let mut live: Vec<(usize, usize, Layout, usize)> = Vec::new();
    let mut seed: u32 = 12345;
    let mut allocs = 0;
    let mut frees = 0;
    for _ in 0..4000 {
        seed = seed.wrapping_mul(1103515245).wrapping_add(12345);
        let pick = (seed >> 16) as usize;
        let cpu = pick % 2;
        if pick % 3 != 0 || live.is_empty() {
            let (size, align) = layouts[(pick / 7) % layouts.len()];
            let l = Layout::from_size_align(size, align).unwrap();
            assert!(h.is_servable(cpu, l));
            let p = h.allocate(cpu, l);
            assert_ne!(p, 0);
            assert_eq!(p % align, 0);
            for (q, len, _, _) in live.iter() {
                assert!(p + size <= *q || *q + *len <= p);
            }
            live.push((p, size, l, cpu));
            allocs += 1;
        } else {
            let (p, _, l, _) = live.swap_remove((pick / 11) % live.len());
            h.dealloc(cpu, p, l);
            frees += 1;
        }
        assert!(!h.cpu(0).interrupts_masked() && !h.cpu(1).interrupts_masked());
        if (allocs + frees) % 97 == 0 {
            conserved(&h, &live);
        }
    }
    assert_eq!(allocs - frees, live.len());
    conserved(&h, &live);
}

/// Every object of a slab page is free, cached or live, and every live one
/// lies within a page of its class.
fn conserved(h: &KHeap, live: &[(usize, usize, Layout, usize)]) {
    let c = h.parameters();
    for k in 0..c.num_classes() {
        let size = c.object_size(k);
        let of_class = Layout::from_size_align(size, 1).unwrap();
        let pages = h.slab_allocator().num_pages(k);
        let objects = pages * (PAGE / size);
        let free = h.slab_allocator().free_count(k);
        let cached = h.cpu(0).cached_count(of_class) + h.cpu(1).cached_count(of_class);
        let mine: Vec<usize> = live
            .iter()
            .filter(|(_, _, l, _)| c.classify(*l) == Some(k))
            .map(|(p, _, _, _)| *p)
            .collect();
        assert_eq!(objects - free - cached, mine.len(), "class {}", k);
        for p in mine {
            let within = (0..pages).any(|i| {
                let page = h.slab_allocator().page(k, i);
                page <= p && p + size <= page + PAGE
            });
            assert!(within);
            assert_eq!(p % size, 0);
        }
    }
}

#[test]
fn huge_path_by_itself() {
    let c = config();
    let mut h = KHeap::new(c, OFFSET, PA::from_value(BASE), 16 * PAGE, 1).unwrap();
    let l = Layout::from_size_align(3 * PAGE, 8).unwrap();
    let small = Layout::from_size_align(PAGE, 8).unwrap();
    let a = h.alloc_huge(l);
    assert_eq!(a, OFFSET + BASE);
    let b = h.alloc_huge(small);
    assert_eq!(b, OFFSET + BASE + 4 * PAGE);
    let c2 = h.alloc_huge(l);
    assert_eq!(c2, OFFSET + BASE + 5 * PAGE);
    h.dealloc_huge(a, l);
    assert!(!h.frame_allocator().is_frame_allocated(PA::from_value(BASE + 3 * PAGE)));
    assert!(h.frame_allocator().is_frame_allocated(PA::from_value(BASE + 4 * PAGE)));
    // The run that was given back serves a request of its order, and a
    // request of another order takes memory that was never used.
    assert_eq!(h.alloc_huge(small), OFFSET + BASE + 9 * PAGE);
    assert_eq!(h.alloc_huge(l), a);
    // Six pages are left.
    assert_eq!(h.alloc_huge(Layout::from_size_align(8 * PAGE, 8).unwrap()), 0);
    assert_eq!(h.alloc_huge(l), OFFSET + BASE + 10 * PAGE);
    assert_eq!(h.alloc_huge(l), 0);
}
