//! The kernel heap: one entry for allocating and one for freeing, over the
//! per-CPU magazines, the slab allocators and the frame allocator.

use crate::address::{PageOffsetTranslator, PhysMemoryRegion, PA, VA};
use crate::align::{is_aligned, lemma_aligned_add};
use crate::cache::{PtrCache, SlabCache};
use crate::frames::FrameAllocator;
use crate::layout::Layout;
use crate::page::ClaimedPage;
use crate::params::{ceil_log2, ceil_log2_usize, HeapConfig, MAGAZINE_CAPACITY};
use crate::slab::{SlabAllocator, SlabManager};
use vstd::arithmetic::power2::pow2;
use vstd::prelude::*;

verus! {

/// What one CPU keeps for the heap: its bundle of magazines, once set up,
/// and whether its interrupts are masked.
pub struct PerCpuCache {
    cache: Option<SlabCache>,
    irq_masked: bool,
}

impl PerCpuCache {
    /// Whether the CPU's bundle has been set up.
    pub closed spec fn initialised(self) -> bool {
        self.cache.is_some()
    }

    /// The CPU's bundle.
    pub closed spec fn bundle(self) -> SlabCache {
        self.cache.unwrap()
    }

    /// The CPU's magazine for a size class, bottom of the stack first.
    pub open spec fn magazine(self, k: int) -> Seq<usize> {
        self.bundle().caches()[k]@
    }

    /// Whether the CPU's interrupts are masked.
    pub closed spec fn irq_masked(self) -> bool {
        self.irq_masked
    }

    /// The invariant of a CPU's state: a bundle that is set up is well formed
    /// and made for the heap's parameters.
    pub open spec fn wf(self, config: HeapConfig) -> bool {
        self.initialised() ==> self.bundle().wf() && self.bundle().spec_config() == config
    }

    /// A CPU that has no bundle yet and takes interrupts.
    pub fn new() -> (r: PerCpuCache)
        ensures
            !r.initialised(),
            !r.irq_masked(),
    {
        PerCpuCache { cache: None, irq_masked: false }
    }

    /// Whether the CPU's bundle has been set up.
    pub fn is_initialised(&self) -> (r: bool)
        ensures
            r == self.initialised(),
    {
        self.cache.is_some()
    }

    /// Whether the CPU's interrupts are masked.
    pub fn interrupts_masked(&self) -> (r: bool)
        ensures
            r == self.irq_masked(),
    {
        self.irq_masked
    }

    /// How many addresses the CPU's magazine for a layout's class holds; 0
    /// where the CPU is not set up or the layout has no class.
    pub fn cached_count(&self, layout: Layout) -> (r: usize)
        requires
            self.initialised() ==> self.bundle().wf(),
        ensures
            r == (if self.initialised() {
                match self.bundle().spec_config().class_of(layout) {
                    Some(k) => self.magazine(k as int).len(),
                    None => 0,
                }
            } else {
                0
            }),
    {
        match &self.cache {
            Some(bundle) => match bundle.peek_cache(layout) {
                Some(cache_line) => cache_line.len(),
                None => 0,
            },
            None => 0,
        }
    }

    /// Enters the CPU's critical section: masks interrupts and tells whether
    /// they were masked before.
    pub fn get(&mut self) -> (flags: bool)
        requires
            old(self).initialised(),
        ensures
            flags == old(self).irq_masked(),
            final(self).irq_masked(),
            final(self).initialised(),
            final(self).bundle() == old(self).bundle(),
    {
        let flags = self.irq_masked;
        self.irq_masked = true;
        flags
    }

    /// Leaves the critical section: puts the interrupt mask back as it was.
    pub fn restore_interrupt_state(&mut self, flags: bool)
        ensures
            final(self).irq_masked() == flags,
            final(self).initialised() == old(self).initialised(),
            final(self).bundle() == old(self).bundle(),
    {
        self.irq_masked = flags;
    }

    /// Hands the CPU its bundle.
    pub fn install(&mut self, bundle: SlabCache)
        ensures
            final(self).initialised(),
            final(self).bundle() == bundle,
            final(self).irq_masked() == old(self).irq_masked(),
    {
        self.cache = Some(bundle);
    }

    /// The CPU's magazine for a layout's size class; `None` where the layout
    /// has none.
    pub fn cache_line(&mut self, layout: Layout) -> (r: Option<&mut PtrCache>)
        requires
            old(self).initialised(),
            old(self).bundle().wf(),
        ensures
            final(self).initialised(),
            final(self).irq_masked() == old(self).irq_masked(),
            final(self).bundle().spec_config() == old(self).bundle().spec_config(),
            final(self).bundle().spec_frame() == old(self).bundle().spec_frame(),
            r.is_some() <==> old(self).bundle().spec_config().class_of(layout).is_some(),
            r.is_none() ==> final(self).bundle().caches() == old(self).bundle().caches(),
            r matches Some(c) ==> {
                let k = old(self).bundle().spec_config().class_of(layout).unwrap() as int;
                &&& *c == old(self).bundle().caches()[k]
                &&& final(self).bundle().caches() == old(self).bundle().caches().update(
                    k,
                    *final(c),
                )
            },
    {
        match &mut self.cache {
            Some(bundle) => bundle.get_cache(layout),
            None => None,
        }
    }
}

/// The least number of pages that hold `bytes` bytes.
pub open spec fn pages_needed(bytes: nat, page_size: nat) -> nat {
    ((bytes + page_size - 1) / (page_size as int)) as nat
}

/// The kernel heap.
pub struct KHeap {
    config: HeapConfig,
    translator: PageOffsetTranslator,
    frames: FrameAllocator,
    slabs: SlabAllocator,
    cpus: Vec<PerCpuCache>,
    /// The huge allocations that are live: where each starts and its order.
    huge: Ghost<Map<usize, nat>>,
}

impl KHeap {
    /// The heap's parameters.
    pub closed spec fn config(self) -> HeapConfig {
        self.config
    }

    /// The kernel's linear map of physical memory.
    pub closed spec fn translator(self) -> PageOffsetTranslator {
        self.translator
    }

    /// The frame allocator under the heap.
    pub closed spec fn frames(self) -> FrameAllocator {
        self.frames
    }

    /// The slab allocators.
    pub closed spec fn slab_set(self) -> SlabAllocator {
        self.slabs
    }

    /// The state of each CPU.
    pub closed spec fn cpus(self) -> Seq<PerCpuCache> {
        self.cpus@
    }

    /// The live huge allocations: the order of each, by its address.
    pub closed spec fn huge(self) -> Map<usize, nat> {
        self.huge@
    }

    /// Number of size classes.
    pub open spec fn num_classes(self) -> int {
        self.config().spec_num_classes() as int
    }

    /// The slab allocator of a size class.
    pub open spec fn slab(self, k: int) -> SlabManager {
        self.slab_set().slabs()[k]
    }

    /// Whether `(c, k, i)` names a place in a magazine: CPU `c` is set up
    /// and its magazine for class `k` holds more than `i` addresses.
    pub open spec fn in_magazine(self, c: int, k: int, i: int) -> bool {
        &&& 0 <= c < self.cpus().len()
        &&& self.cpus()[c].initialised()
        &&& 0 <= k < self.num_classes()
        &&& 0 <= i < self.cpus()[c].magazine(k).len()
    }

    /// The address at a place in a magazine.
    pub open spec fn cached(self, c: int, k: int, i: int) -> usize {
        self.cpus()[c].magazine(k)[i]
    }

    /// Whether some magazine of class `k` holds `p`.
    pub open spec fn is_cached(self, k: int, p: usize) -> bool {
        exists|c: int, i: int| self.in_magazine(c, k, i) && #[trigger] self.cached(c, k, i) == p
    }

    /// Whether `p` is a live object of class `k`: an object of the class's
    /// slab that is neither on the free list nor in a magazine.
    pub open spec fn is_live(self, k: int, p: usize) -> bool {
        &&& 0 <= k < self.num_classes()
        &&& self.slab(k).is_taken(p)
        &&& !self.is_cached(k, p)
    }

    /// Bytes in a huge allocation of the given order.
    pub open spec fn huge_bytes(self, order: nat) -> nat {
        self.config().spec_page_size() * pow2(order)
    }

    /// No page belongs to the slabs of two size classes.
    pub open spec fn pages_distinct(self) -> bool {
        forall|k1: int, i1: int, k2: int, i2: int|
            0 <= k1 < self.num_classes() && 0 <= k2 < self.num_classes() && k1 != k2 && 0 <= i1
                < self.slab(k1).pages().len() && 0 <= i2 < self.slab(k2).pages().len()
                ==> #[trigger] self.slab(k1).pages()[i1] != #[trigger] self.slab(k2).pages()[i2]
    }

    /// Whatever a magazine holds is an object of its class's slab and is not
    /// on the free list.
    pub open spec fn magazines_hold_objects(self) -> bool {
        forall|c: int, k: int, i: int|
            self.in_magazine(c, k, i) ==> self.slab(k).is_taken(#[trigger] self.cached(c, k, i))
    }

    /// No address is held twice, in one magazine or in two.
    pub open spec fn magazines_distinct(self) -> bool {
        forall|c1: int, i1: int, c2: int, i2: int, k: int|
            self.in_magazine(c1, k, i1) && self.in_magazine(c2, k, i2) && (c1 != c2 || i1 != i2)
                ==> #[trigger] self.cached(c1, k, i1) != #[trigger] self.cached(c2, k, i2)
    }

    /// The physical memory behind a huge allocation.
    pub open spec fn huge_region(self, va: usize, order: nat) -> PhysMemoryRegion {
        PhysMemoryRegion {
            start: PA(self.translator().spec_to_pa(va as int) as usize),
            size: self.huge_bytes(order) as usize,
        }
    }

    /// Each live huge allocation is memory that the frame allocator has
    /// handed out, starts on a page, and holds no slab page and no other
    /// huge allocation.
    pub open spec fn huge_wf(self) -> bool {
        &&& self.huge().dom().finite()
        &&& forall|va: usize| #[trigger]
            self.huge().contains_key(va) ==> {
                let r = self.huge_region(va, self.huge()[va]);
                &&& va >= self.translator().offset
                &&& va + self.huge_bytes(self.huge()[va]) <= usize::MAX
                &&& r.size > 0
                &&& is_aligned(r.start.0 as int, self.config().spec_page_size() as int)
                &&& is_aligned(r.size as int, self.config().spec_page_size() as int)
                &&& self.frames().region_allocated(r)
            }
        &&& forall|va1: usize, va2: usize|
            #[trigger] self.huge().contains_key(va1) && #[trigger] self.huge().contains_key(va2)
                && va1 != va2 ==> va1 + self.huge_bytes(self.huge()[va1]) <= va2 || va2
                + self.huge_bytes(self.huge()[va2]) <= va1
        &&& forall|va: usize, k: int, i: int|
            #[trigger] self.huge().contains_key(va) && 0 <= k < self.num_classes() && 0 <= i
                < self.slab(k).pages().len() ==> {
                let page = #[trigger] self.slab(k).pages()[i];
                page < va || page >= va + self.huge_bytes(self.huge()[va])
            }
    }

    /// The invariant of the heap.
    pub open spec fn wf(self) -> bool {
        &&& self.config().wf()
        &&& self.frames().wf()
        &&& self.frames().spec_page_size() == self.config().spec_page_size()
        &&& is_aligned(self.translator().offset as int, self.config().spec_page_size() as int)
        &&& self.frames().spec_end() + self.translator().offset <= usize::MAX
        &&& self.slab_set().wf()
        &&& self.slab_set().spec_config() == self.config()
        &&& forall|k: int|
            0 <= k < self.num_classes() ==> (#[trigger] self.slab(k)).backed_by(
                self.frames(),
                self.translator(),
            )
        &&& self.pages_distinct()
        &&& forall|c: int|
            0 <= c < self.cpus().len() ==> (#[trigger] self.cpus()[c]).wf(self.config())
        &&& self.magazines_hold_objects()
        &&& self.magazines_distinct()
        &&& self.huge_wf()
    }

    /// A heap over the physical memory `[base, base + size)`, seen by the
    /// kernel at `page_offset` above its physical address, for `num_cpus`
    /// CPUs none of which is set up yet. `None` where the memory does not
    /// start on a page, starts at 0, or does not fit under the offset.
    pub fn new(
        config: HeapConfig,
        page_offset: usize,
        base: PA,
        size: usize,
        num_cpus: usize,
    ) -> (r: Option<KHeap>)
        requires
            config.wf(),
        ensures
            r.is_some() <==> {
                &&& base.0 > 0
                &&& is_aligned(base.0 as int, config.spec_page_size() as int)
                &&& is_aligned(page_offset as int, config.spec_page_size() as int)
                &&& base.0 + size + page_offset <= usize::MAX
            },
            r matches Some(h) ==> {
                &&& h.wf()
                &&& h.config() == config
                &&& h.translator().offset == page_offset
                &&& h.cpus().len() == num_cpus
                &&& h.frames().spec_base() == base.0
                &&& h.frames().spec_end() == base.0 + size
                &&& h.frames().spec_next() == base.0
                &&& h.frames().free_runs() == Seq::<PhysMemoryRegion>::empty()
                &&& h.slab_set().spec_locks_taken() == 0
                &&& h.huge() == Map::<usize, nat>::empty()
                &&& forall|a: int| !h.frames().is_allocated(a)
                &&& forall|order: nat|
                    h.frames().can_alloc(order) <==> h.frames().order_bytes(order) <= size
                &&& forall|c: int|
                    0 <= c < num_cpus ==> !(#[trigger] h.cpus()[c]).initialised() && !h.cpus()[c].irq_masked()
                &&& forall|k: int|
                    0 <= k < h.num_classes() ==> (#[trigger] h.slab(k)).pages().len() == 0
                        && h.slab(k).free_list().len() == 0
            },
    {
        let page_size = config.page_size();
        proof {
            config.lemma_wf();
            crate::align::lemma_aligned_def(page_offset as int, page_size as int);
        }
        if page_offset % page_size != 0 {
            return None;
        }
        if size > usize::MAX - page_offset || base.0 > usize::MAX - page_offset - size {
            return None;
        }
        let frames = match FrameAllocator::new(page_size, base, size) {
            Some(f) => f,
            None => {
                return None;
            },
        };
        let slabs = SlabAllocator::new(config);
        let mut cpus: Vec<PerCpuCache> = Vec::new();
        let mut c: usize = 0;
        while c < num_cpus
            invariant
                c <= num_cpus,
                cpus@.len() == c,
                forall|j: int| 0 <= j < c ==> !(#[trigger] cpus@[j]).initialised() && !cpus@[j].irq_masked(),
            decreases num_cpus - c,
        {
            cpus.push(PerCpuCache::new());
            c = c + 1;
        }
        let heap = KHeap {
            config,
            translator: PageOffsetTranslator::new(page_offset),
            frames,
            slabs,
            cpus,
            huge: Ghost(Map::empty()),
        };
        proof {
            assert forall|k: int| 0 <= k < heap.num_classes() implies (#[trigger] heap.slab(
                k,
            )).backed_by(heap.frames(), heap.translator()) by {
                assert(heap.slab(k).pages().len() == 0);
            }
            assert(heap.pages_distinct()) by {
                assert forall|k1: int, i1: int, k2: int, i2: int|
                    0 <= k1 < heap.num_classes() && 0 <= k2 < heap.num_classes() && k1 != k2 && 0
                        <= i1 < heap.slab(k1).pages().len() && 0 <= i2 < heap.slab(
                        k2,
                    ).pages().len() implies #[trigger] heap.slab(k1).pages()[i1]
                    != #[trigger] heap.slab(k2).pages()[i2] by {
                    assert(heap.slab(k1).pages().len() == 0);
                }
            }
        }
        Some(heap)
    }

    /// Number of CPUs the heap serves.
    pub fn num_cpus(&self) -> (r: usize)
        ensures
            r == self.cpus().len(),
    {
        self.cpus.len()
    }

    /// How often a slab's lock was taken.
    pub fn locks_taken(&self) -> (r: usize)
        ensures
            r == self.slab_set().spec_locks_taken(),
    {
        self.slabs.locks_taken()
    }

    /// The heap's parameters.
    pub fn parameters(&self) -> (r: HeapConfig)
        ensures
            r == self.config(),
    {
        self.config
    }

    /// The frame allocator under the heap.
    pub fn frame_allocator(&self) -> (r: &FrameAllocator)
        ensures
            *r == self.frames(),
    {
        &self.frames
    }

    /// The slab allocators.
    pub fn slab_allocator(&self) -> (r: &SlabAllocator)
        ensures
            *r == self.slab_set(),
    {
        &self.slabs
    }

    /// The state of CPU `cpu`.
    pub fn cpu(&self, cpu: usize) -> (r: &PerCpuCache)
        requires
            cpu < self.cpus().len(),
        ensures
            *r == self.cpus()[cpu as int],
    {
        &self.cpus[cpu]
    }

    /// Whether `allocate` may be called for a layout on CPU `cpu`.
    pub fn is_servable(&self, cpu: usize, layout: Layout) -> (r: bool)
        requires
            self.wf(),
        ensures
            r == self.can_allocate(cpu as int, layout),
    {
        if cpu >= self.cpus.len() || !self.cpus[cpu].is_initialised() {
            return false;
        }
        proof {
            self.config().lemma_class_of(layout);
            assert(self.cpus()[cpu as int].wf(self.config()));
        }
        match self.config.classify(layout) {
            None => true,
            Some(k) => {
                assert(self.slab(k as int).wf());
                if self.cpus[cpu].cached_count(layout) == 0 && self.slabs.is_exhausted(k) {
                    self.frames.has_frames(0)
                } else {
                    true
                }
            },
        }
    }

    /// Whether between two states of the heap nothing changed but CPU
    /// `cpu`'s magazine for class `k`, the slab of class `k`, the frame
    /// allocator, the count of locks and the live huge allocations.
    pub open spec fn same_but(self, before: KHeap, cpu: int, k: int) -> bool {
        &&& self.config() == before.config()
        &&& self.translator() == before.translator()
        &&& self.cpus().len() == before.cpus().len()
        &&& forall|c: int|
            0 <= c < self.cpus().len() && c != cpu ==> #[trigger] self.cpus()[c]
                == before.cpus()[c]
        &&& self.cpus()[cpu].initialised()
        &&& self.cpus()[cpu].irq_masked() == before.cpus()[cpu].irq_masked()
        &&& self.cpus()[cpu].bundle().spec_config() == before.cpus()[cpu].bundle().spec_config()
        &&& self.cpus()[cpu].bundle().spec_frame() == before.cpus()[cpu].bundle().spec_frame()
        &&& self.cpus()[cpu].bundle().caches().len() == before.cpus()[cpu].bundle().caches().len()
        &&& forall|j: int|
            0 <= j < self.num_classes() && j != k ==> #[trigger] self.cpus()[cpu].bundle().caches()[j]
                == before.cpus()[cpu].bundle().caches()[j]
        &&& self.slab_set().spec_config() == before.slab_set().spec_config()
        &&& self.slab_set().slabs().len() == before.slab_set().slabs().len()
        &&& forall|j: int|
            0 <= j < self.num_classes() && j != k ==> #[trigger] self.slab(j) == before.slab(j)
    }

    /// The fast path of allocation, which runs with the CPU's interrupts
    /// masked: takes the address CPU `cpu` cached last for the layout's
    /// class; `None`, and nothing changed, where that magazine is empty.
    fn alloc_fast(&mut self, cpu: usize, layout: Layout) -> (r: Option<usize>)
        requires
            old(self).wf(),
            cpu < old(self).cpus().len(),
            old(self).cpus()[cpu as int].initialised(),
            old(self).cpus()[cpu as int].irq_masked(),
            old(self).config().class_of(layout).is_some(),
        ensures
            ({
                let k = old(self).config().class_of(layout).unwrap() as int;
                let cached = old(self).cpus()[cpu as int].magazine(k);
                &&& final(self).same_but(*old(self), cpu as int, k)
                &&& final(self).frames() == old(self).frames()
                &&& final(self).slab_set() == old(self).slab_set()
                &&& final(self).huge() == old(self).huge()
                &&& final(self).cpus()[cpu as int].bundle().caches()[k].wf()
                &&& r.is_none() <==> cached.len() == 0
                &&& r.is_none() ==> final(self).cpus()[cpu as int].magazine(k) == cached
                &&& r matches Some(p) ==> p == cached.last() && final(self).cpus()[cpu as int].magazine(
                    k,
                ) == cached.drop_last()
            }),
    {
        proof {
            old(self).config().lemma_class_of(layout);
        }
        match self.cpus[cpu].cache_line(layout) {
            Some(cache_line) => cache_line.allocate(),
            None => None,
        }
    }

    /// The free objects of class `k` as they stand once the slab has made
    /// sure it has some: its free list, or where that is empty the objects
    /// of the page that the frame allocator would hand out next.
    pub open spec fn refilled(self, k: int) -> Seq<usize> {
        if self.slab(k).free_list().len() > 0 {
            self.slab(k).free_list()
        } else {
            crate::slab::page_slots(
                self.translator().spec_to_va(self.frames().spec_pick(0)),
                self.slab(k).spec_object_size() as int,
                self.slab(k).spec_page_size() as int,
            )
        }
    }

    /// The objects that the slow path moves into the magazine: those after
    /// the first of `refilled`, as many as the magazine has room for.
    pub open spec fn refill_moved(self, cpu: int, k: int) -> Seq<usize> {
        let rest = self.refilled(k).skip(1);
        rest.take(PtrCache::fill_count(self.cpus()[cpu].magazine(k), rest) as int)
    }

    /// The slow path of allocation, which runs with the CPU's interrupts
    /// masked: takes the lock of the layout's class, allocates from its
    /// slab, which may take a page from the frame allocator, and fills CPU
    /// `cpu`'s magazine from the slab.
    fn alloc_slow(&mut self, cpu: usize, layout: Layout) -> (r: usize)
        requires
            old(self).wf(),
            cpu < old(self).cpus().len(),
            old(self).cpus()[cpu as int].initialised(),
            old(self).cpus()[cpu as int].irq_masked(),
            old(self).config().class_of(layout).is_some(),
            old(self).slab(old(self).config().class_of(layout).unwrap() as int).free_list().len()
                == 0 ==> old(self).frames().can_alloc(0),
        ensures
            ({
                let k = old(self).config().class_of(layout).unwrap() as int;
                let grew = old(self).slab(k).free_list().len() == 0;
                let full = old(self).refilled(k);
                let moved = old(self).refill_moved(cpu as int, k);
                let pa = old(self).frames().spec_pick(0);
                &&& final(self).same_but(*old(self), cpu as int, k)
                &&& final(self).huge() == old(self).huge()
                &&& final(self).slab_set().spec_locks_taken() == SlabAllocator::count_up(
                    old(self).slab_set().spec_locks_taken(),
                )
                &&& final(self).frames().wf()
                &&& final(self).frames().spec_page_size() == old(self).frames().spec_page_size()
                &&& final(self).frames().spec_base() == old(self).frames().spec_base()
                &&& final(self).frames().spec_end() == old(self).frames().spec_end()
                &&& final(self).slab(k).wf()
                &&& final(self).slab(k).spec_object_size() == old(self).slab(k).spec_object_size()
                &&& final(self).slab(k).spec_page_size() == old(self).slab(k).spec_page_size()
                &&& final(self).slab(k).backed_by(final(self).frames(), final(self).translator())
                &&& final(self).cpus()[cpu as int].bundle().caches()[k].wf()
                &&& full.len() > 0
                &&& r == full[0]
                &&& final(self).cpus()[cpu as int].magazine(k) == old(self).cpus()[cpu as int].magazine(
                    k,
                ) + moved
                &&& final(self).slab(k).free_list() == full.skip(1).skip(moved.len() as int)
                &&& !grew ==> final(self).frames() == old(self).frames() && final(self).slab(
                    k,
                ).pages() == old(self).slab(k).pages()
                &&& grew ==> {
                    &&& old(self).frames().served(0, final(self).frames())
                    &&& r == final(self).translator().spec_to_va(pa)
                    &&& final(self).slab(k).pages() == old(self).slab(k).pages().push(r)
                    &&& forall|a: int|
                        pa <= a < pa + old(self).config().spec_page_size() ==> !old(
                            self,
                        ).frames().is_allocated(a)
                    &&& forall|a: int|
                        final(self).frames().is_allocated(a) <==> old(self).frames().is_allocated(a)
                            || (pa <= a < pa + old(self).config().spec_page_size())
                }
                &&& moved.no_duplicates()
                &&& !old(self).slab(k).is_taken(r)
                &&& forall|i: int|
                    0 <= i < moved.len() ==> !old(self).slab(k).is_taken(#[trigger] moved[i])
                        && moved[i] != r
                &&& forall|q: usize|
                    #[trigger] final(self).slab(k).is_taken(q) <==> old(self).slab(k).is_taken(q) || q == r
                        || moved.contains(q)
            }),
    {
        proof {
            old(self).config().lemma_class_of(layout);
        }
        let ghost k = old(self).config().class_of(layout).unwrap() as int;
        let ghost before = *old(self);
        assert(before.slab(k).wf());
        assert(before.cpus()[cpu as int].wf(before.config()));
        let slab = match self.slabs.allocator_for_layout(layout) {
            Some(s) => s,
            None => {
                return 0;
            },
        };
        let ptr = slab.allocate(&mut self.frames, &self.translator);
        let ghost mid = *slab;
        match self.cpus[cpu].cache_line(layout) {
            Some(cache_line) => {
                cache_line.fill_from(slab);
            },
            None => {},
        }
        proof {
            let full = before.refilled(k);
            let moved = before.refill_moved(cpu as int, k);
            if before.slab(k).free_list().len() == 0 {
                SlabManager::lemma_first_slot(
                    ptr as int,
                    before.slab(k).spec_object_size() as int,
                    before.slab(k).spec_page_size() as int,
                );
            }
            assert(mid.free_list() == full.skip(1));
            assert(moved == mid.free_list().take(moved.len() as int));
            assert forall|i: int| 0 <= i < moved.len() implies !before.slab(k).is_taken(
                #[trigger] moved[i],
            ) && moved[i] != ptr by {
                assert(mid.free_list()[i] == moved[i]);
                assert(mid.free_list().contains(moved[i]));
                assert(!mid.is_taken(moved[i]));
            }
            assert(moved.no_duplicates()) by {
                assert forall|i: int, j: int|
                    0 <= i < moved.len() && 0 <= j < moved.len() && i != j implies moved[i]
                    != moved[j] by {
                    assert(mid.free_list()[i] == moved[i]);
                    assert(mid.free_list()[j] == moved[j]);
                }
            }
        }
        ptr
    }

    /// Whether two states of the heap hold the same objects in the same
    /// places: they differ at most in the CPUs' interrupt masks.
    pub open spec fn same_objects(self, before: KHeap) -> bool {
        &&& self.config() == before.config()
        &&& self.translator() == before.translator()
        &&& self.frames() == before.frames()
        &&& self.slab_set() == before.slab_set()
        &&& self.huge() == before.huge()
        &&& self.cpus().len() == before.cpus().len()
        &&& forall|c: int|
            0 <= c < self.cpus().len() ==> {
                &&& (#[trigger] self.cpus()[c]).initialised() == before.cpus()[c].initialised()
                &&& before.cpus()[c].wf(before.config()) ==> self.cpus()[c].wf(self.config())
            }
        &&& forall|c: int, j: int|
            0 <= c < self.cpus().len() && 0 <= j < self.num_classes() ==> #[trigger] self.cpus()[c].magazine(
                j,
            ) == before.cpus()[c].magazine(j)
    }

    /// Whether every CPU's interrupt mask and bundle are set up in one state
    /// as in another.
    pub open spec fn same_cpu_flags(self, before: KHeap) -> bool {
        &&& self.cpus().len() == before.cpus().len()
        &&& forall|c: int|
            0 <= c < self.cpus().len() ==> (#[trigger] self.cpus()[c]).initialised()
                == before.cpus()[c].initialised() && self.cpus()[c].irq_masked()
                == before.cpus()[c].irq_masked()
    }

    /// The order of the run of pages that serves a huge layout: the least
    /// whose run holds the larger of the layout's size and alignment.
    pub open spec fn spec_huge_order(self, layout: Layout) -> nat {
        let bytes = if layout.spec_size() >= layout.spec_align() {
            layout.spec_size()
        } else {
            layout.spec_align()
        };
        ceil_log2(pages_needed(bytes, self.config().spec_page_size()))
    }

    /// Calculates the order of the run of pages that serves a huge layout.
    pub fn calculate_huge_order(&self, layout: Layout) -> (r: usize)
        requires
            self.config().wf(),
        ensures
            r == self.spec_huge_order(layout),
    {
        let size = if layout.size() >= layout.align() {
            layout.size()
        } else {
            layout.align()
        };
        let page_size = self.config.page_size();
        proof {
            self.config.lemma_wf();
            lemma_pages_needed(size as nat, page_size as nat);
        }
        let pages_needed = if size % page_size == 0 {
            size / page_size
        } else {
            size / page_size + 1
        };
        ceil_log2_usize(pages_needed) as usize
    }

    /// Whether two states of the heap have the same slabs and magazines and
    /// differ at most in the frame allocator and the live huge allocations.
    pub open spec fn same_small(self, before: KHeap) -> bool {
        &&& self.config() == before.config()
        &&& self.translator() == before.translator()
        &&& self.slab_set() == before.slab_set()
        &&& self.cpus() == before.cpus()
    }

    /// The huge path of allocation: takes a run of pages of the layout's
    /// order from the frame allocator and keeps it allocated. Returns where
    /// the kernel sees the run, or 0 where the frame allocator has none.
    pub fn alloc_huge(&mut self, layout: Layout) -> (r: usize)
        requires
            old(self).wf(),
        ensures
            final(self).wf(),
            final(self).same_small(*old(self)),
            forall|j: int, q: usize| final(self).is_live(j, q) == old(self).is_live(j, q),
            final(self).frames().spec_page_size() == old(self).frames().spec_page_size(),
            final(self).frames().spec_base() == old(self).frames().spec_base(),
            final(self).frames().spec_end() == old(self).frames().spec_end(),
            r == 0 <==> !old(self).frames().can_alloc(old(self).spec_huge_order(layout)),
            r == 0 ==> final(self).frames() == old(self).frames() && final(self).huge() == old(
                self,
            ).huge(),
            r != 0 ==> {
                let order = old(self).spec_huge_order(layout);
                let region = old(self).huge_region(r, order);
                &&& old(self).frames().served(order, final(self).frames())
                &&& r == old(self).translator().spec_to_va(old(self).frames().spec_pick(order))
                &&& is_aligned(r as int, old(self).config().spec_page_size() as int)
                &&& !old(self).huge().contains_key(r)
                &&& final(self).huge() == old(self).huge().insert(r, order)
                &&& old(self).frames().region_unallocated(region)
                &&& forall|a: int|
                    final(self).frames().is_allocated(a) <==> old(self).frames().is_allocated(a)
                        || region.contains(a)
            },
    {
        let ghost before = *self;
        let order = self.calculate_huge_order(layout);
        match self.frames.alloc_frames(order) {
            None => {
                proof {
                    self.lemma_same_objects(before);
                }
                0
            },
            Some(allocation) => {
                let region = allocation.leak();
                proof {
                    self.frames.lemma_region_in_bounds(region);
                    assert(region.contains(region.start.0 as int));
                    assert(self.frames.is_allocated(region.start.0 as int));
                    self.frames.lemma_allocated_in_bounds(region.start.0 as int);
                }
                let va = self.translator.pa_to_va(region.start_address());
                self.huge = Ghost(self.huge@.insert(va.0, order as nat));
                proof {
                    assert(before.huge_region(va.0, order as nat) == region);
                    lemma_aligned_add(
                        region.start.0 as int,
                        self.translator.offset as int,
                        self.config.spec_page_size() as int,
                    );
                    self.lemma_after_huge_alloc(before, va.0, order as nat);
                }
                va.0
            },
        }
    }

    /// What `allocate` asks of the heap: the CPU is set up, and where the
    /// layout has a class whose magazine on this CPU and whose slab are both
    /// out of free objects, the frame allocator has a page left.
    pub open spec fn can_allocate(self, cpu: int, layout: Layout) -> bool {
        &&& self.wf()
        &&& 0 <= cpu < self.cpus().len()
        &&& self.cpus()[cpu].initialised()
        &&& self.config().class_of(layout) matches Some(k) ==> (self.cpus()[cpu].magazine(
            k as int,
        ).len() == 0 && self.slab(k as int).free_list().len() == 0 ==> self.frames().can_alloc(
            0,
        ))
    }

    /// What an allocation from a size class does: it hands out an object of
    /// the class that was not live and now is, and changes nothing else
    /// about what is live. With a cached object at hand it takes the one
    /// cached last and touches neither slab nor frame allocator; otherwise
    /// it takes a slab's lock once, hands out the first free object of the
    /// slab and caches the ones that follow.
    pub open spec fn allocated_small(
        self,
        before: KHeap,
        cpu: int,
        layout: Layout,
        k: int,
        r: usize,
    ) -> bool {
        let cached = before.cpus()[cpu].magazine(k);
        &&& r != 0
        &&& self.is_live(k, r)
        &&& !before.is_live(k, r)
        &&& forall|j: int, q: usize|
            (j != k || q != r) ==> self.is_live(j, q) == before.is_live(j, q)
        &&& layout.spec_size() <= self.config().spec_object_size(k as nat)
        &&& layout.wf() ==> is_aligned(r as int, layout.spec_align() as int)
        &&& self.same_but(before, cpu, k)
        &&& self.huge() == before.huge()
        &&& self.cpus()[cpu].magazine(k).len() <= MAGAZINE_CAPACITY
        &&& cached.len() > 0 ==> {
            &&& r == cached.last()
            &&& self.cpus()[cpu].magazine(k) == cached.drop_last()
            &&& self.slab_set() == before.slab_set()
            &&& self.frames() == before.frames()
        }
        &&& cached.len() == 0 ==> {
            let full = before.refilled(k);
            let moved = before.refill_moved(cpu, k);
            let pa = before.frames().spec_pick(0);
            &&& r == full[0]
            &&& self.cpus()[cpu].magazine(k) == moved
            &&& self.slab(k).free_list() == full.skip(1 + moved.len() as int)
            &&& self.slab_set().spec_locks_taken() == SlabAllocator::count_up(
                before.slab_set().spec_locks_taken(),
            )
            &&& before.slab(k).free_list().len() > 0 ==> self.frames() == before.frames()
                && self.slab(k).pages() == before.slab(k).pages()
            &&& before.slab(k).free_list().len() == 0 ==> {
                &&& before.frames().served(0, self.frames())
                &&& r == self.translator().spec_to_va(pa)
                &&& self.slab(k).pages() == before.slab(k).pages().push(r)
                &&& forall|a: int|
                    self.frames().is_allocated(a) <==> before.frames().is_allocated(a) || (pa <= a
                        < pa + self.config().spec_page_size())
            }
        }
    }

    /// What an allocation by the huge path does: where the frame allocator
    /// has a run of the layout's order, that run becomes a live huge
    /// allocation; else the result is 0 and nothing changes. Slabs and
    /// magazines stay as they are.
    pub open spec fn allocated_huge(self, before: KHeap, layout: Layout, r: usize) -> bool {
        let order = before.spec_huge_order(layout);
        let region = before.huge_region(r, order);
        &&& self.same_small(before)
        &&& forall|j: int, q: usize| self.is_live(j, q) == before.is_live(j, q)
        &&& r == 0 <==> !before.frames().can_alloc(order)
        &&& r == 0 ==> self.frames() == before.frames() && self.huge() == before.huge()
        &&& r != 0 ==> {
            &&& before.frames().served(order, self.frames())
            &&& r == before.translator().spec_to_va(before.frames().spec_pick(order))
            &&& is_aligned(r as int, before.config().spec_page_size() as int)
            &&& !before.huge().contains_key(r)
            &&& self.huge() == before.huge().insert(r, order)
            &&& before.frames().region_unallocated(region)
            &&& forall|a: int|
                self.frames().is_allocated(a) <==> before.frames().is_allocated(a)
                    || region.contains(a)
        }
    }

    /// Allocates memory for a layout on CPU `cpu`. A layout with a size
    /// class is served from the CPU's magazine, and from the class's slab
    /// where the magazine is empty; a larger one goes to the frame
    /// allocator. Returns the address, or 0 where a huge layout finds no
    /// memory.
    pub fn allocate(&mut self, cpu: usize, layout: Layout) -> (r: usize)
        requires
            old(self).can_allocate(cpu as int, layout),
        ensures
            final(self).wf(),
            final(self).same_cpu_flags(*old(self)),
            final(self).frames().spec_base() == old(self).frames().spec_base(),
            final(self).frames().spec_end() == old(self).frames().spec_end(),
            match old(self).config().class_of(layout) {
                Some(k) => final(self).allocated_small(*old(self), cpu as int, layout, k as int, r),
                None => final(self).allocated_huge(*old(self), layout, r),
            },
    {
        let ghost before = *self;
        let flags = self.cpus[cpu].get();
        let ghost entered = *self;
        proof {
            entered.lemma_same_objects(before);
            before.config().lemma_class_of(layout);
        }
        let r = match self.config.classify(layout) {
            None => self.alloc_huge(layout),
            Some(class) => {
                let ghost k = class as int;
                match self.alloc_fast(cpu, layout) {
                    Some(p) => {
                        proof {
                            self.lemma_after_pop(entered, cpu as int, k, p);
                        }
                        p
                    },
                    None => {
                        let ghost empty = *self;
                        proof {
                            empty.lemma_unchanged(entered, cpu as int, k);
                            empty.lemma_same_objects(entered);
                            assert(empty.slab(k) == before.slab(k));
                            assert(empty.cpus()[cpu as int].magazine(k)
                                == before.cpus()[cpu as int].magazine(k));
                        }
                        let p = self.alloc_slow(cpu, layout);
                        proof {
                            let moved = empty.refill_moved(cpu as int, k);
                            let grew = empty.slab(k).free_list().len() == 0;
                            if grew {
                                let pa = empty.frames().spec_pick(0);
                                assert(!empty.frames().is_allocated(pa));
                            }
                            self.lemma_after_refill(empty, cpu as int, k, p, moved, grew);
                            self.lemma_chain(empty, entered, cpu as int, k);
                            assert(self.cpus()[cpu as int].magazine(k) =~= moved);
                            assert(empty.refilled(k).skip(1).skip(moved.len() as int)
                                =~= empty.refilled(k).skip(1 + moved.len() as int));
                        }
                        p
                    },
                }
            },
        };
        let ghost served = *self;
        self.cpus[cpu].restore_interrupt_state(flags);
        proof {
            self.lemma_same_objects(served);
            match before.config().class_of(layout) {
                Some(k) => {
                    let k = k as int;
                    served.lemma_small_facts(cpu as int, layout, k, r);
                    self.lemma_chain_flags(served, entered, before, cpu as int, k);
                    assert(self.cpus()[cpu as int].magazine(k) == served.cpus()[cpu as int].magazine(
                        k,
                    ));
                    assert(self.slab(k) == served.slab(k));
                },
                None => {
                    assert(self.cpus() =~= before.cpus());
                },
            }
        }
        r
    }

    /// The fast path of freeing, which runs with the CPU's interrupts masked:
    /// caches the address in CPU `cpu`'s magazine for the layout's class.
    /// Tells whether it did; where the magazine is full nothing changes.
    fn dealloc_fast(&mut self, cpu: usize, ptr: usize, layout: Layout) -> (r: bool)
        requires
            old(self).wf(),
            cpu < old(self).cpus().len(),
            old(self).cpus()[cpu as int].initialised(),
            old(self).cpus()[cpu as int].irq_masked(),
            old(self).config().class_of(layout).is_some(),
        ensures
            ({
                let k = old(self).config().class_of(layout).unwrap() as int;
                let cached = old(self).cpus()[cpu as int].magazine(k);
                &&& final(self).same_but(*old(self), cpu as int, k)
                &&& final(self).frames() == old(self).frames()
                &&& final(self).slab_set() == old(self).slab_set()
                &&& final(self).huge() == old(self).huge()
                &&& final(self).cpus()[cpu as int].bundle().caches()[k].wf()
                &&& r <==> cached.len() < MAGAZINE_CAPACITY
                &&& !r ==> final(self).cpus()[cpu as int].magazine(k) == cached
                &&& r ==> final(self).cpus()[cpu as int].magazine(k) == cached.push(ptr)
            }),
    {
        proof {
            old(self).config().lemma_class_of(layout);
            let k = old(self).config().class_of(layout).unwrap() as int;
            assert(old(self).cpus()[cpu as int].wf(old(self).config()));
            old(self).cpus()[cpu as int].bundle().caches()[k].lemma_len();
        }
        match self.cpus[cpu].cache_line(layout) {
            Some(cache_line) => cache_line.free(ptr).is_ok(),
            None => false,
        }
    }

    /// The objects that the slow path of freeing moves from a full magazine
    /// back to the slab: the upper half.
    pub open spec fn drain_moved(self, cpu: int, k: int) -> Seq<usize> {
        let cached = self.cpus()[cpu].magazine(k);
        cached.skip(cached.len() - PtrCache::drain_count(cached))
    }

    /// The slow path of freeing, which runs with the CPU's interrupts masked:
    /// takes the lock of the layout's class, frees the object into its slab
    /// and drains half of CPU `cpu`'s magazine after it.
    fn dealloc_slow(&mut self, cpu: usize, ptr: usize, layout: Layout)
        requires
            old(self).wf(),
            cpu < old(self).cpus().len(),
            old(self).cpus()[cpu as int].initialised(),
            old(self).cpus()[cpu as int].irq_masked(),
            old(self).config().class_of(layout).is_some(),
            old(self).is_live(old(self).config().class_of(layout).unwrap() as int, ptr),
        ensures
            ({
                let k = old(self).config().class_of(layout).unwrap() as int;
                let cached = old(self).cpus()[cpu as int].magazine(k);
                let moved = old(self).drain_moved(cpu as int, k);
                &&& final(self).same_but(*old(self), cpu as int, k)
                &&& final(self).huge() == old(self).huge()
                &&& final(self).frames() == old(self).frames()
                &&& final(self).slab_set().spec_locks_taken() == SlabAllocator::count_up(
                    old(self).slab_set().spec_locks_taken(),
                )
                &&& final(self).slab(k).wf()
                &&& final(self).slab(k).spec_object_size() == old(self).slab(k).spec_object_size()
                &&& final(self).slab(k).spec_page_size() == old(self).slab(k).spec_page_size()
                &&& final(self).slab(k).pages() == old(self).slab(k).pages()
                &&& final(self).cpus()[cpu as int].bundle().caches()[k].wf()
                &&& final(self).cpus()[cpu as int].magazine(k) == cached.take(
                    cached.len() - moved.len(),
                )
                &&& final(self).slab(k).free_list() == moved + seq![ptr] + old(self).slab(
                    k,
                ).free_list()
                &&& forall|q: usize| #[trigger]
                    final(self).slab(k).is_taken(q) <==> old(self).slab(k).is_taken(q) && q != ptr
                        && !moved.contains(q)
            }),
    {
        proof {
            old(self).config().lemma_class_of(layout);
        }
        let ghost k = old(self).config().class_of(layout).unwrap() as int;
        let ghost before = *old(self);
        let ghost cached = before.cpus()[cpu as int].magazine(k);
        assert(before.slab(k).wf());
        assert(before.cpus()[cpu as int].wf(before.config()));
        let slab = match self.slabs.allocator_for_layout(layout) {
            Some(s) => s,
            None => {
                return ;
            },
        };
        slab.free(ptr);
        let ghost mid = *slab;
        proof {
            let keep = cached.len() - PtrCache::drain_count(cached);
            assert forall|i: int| keep <= i < cached.len() implies mid.is_slot(
                #[trigger] cached[i] as int,
            ) && !mid.free_list().contains(cached[i]) by {
                assert(before.in_magazine(cpu as int, k, i));
                assert(before.slab(k).is_taken(before.cached(cpu as int, k, i)));
                assert(before.is_cached(k, cached[i]));
                assert(mid.is_taken(cached[i]));
            }
            assert forall|i: int, j: int|
                keep <= i < cached.len() && keep <= j < cached.len() && i != j implies cached[i]
                != cached[j] by {
                assert(before.in_magazine(cpu as int, k, i));
                assert(before.in_magazine(cpu as int, k, j));
                assert(before.cached(cpu as int, k, i) != before.cached(cpu as int, k, j));
            }
        }
        match self.cpus[cpu].cache_line(layout) {
            Some(cache_line) => {
                cache_line.drain_into(slab);
            },
            None => {},
        }
    }

    /// The huge path of freeing: gives the run of pages behind the address
    /// back to the frame allocator.
    pub fn dealloc_huge(&mut self, ptr: usize, layout: Layout)
        requires
            old(self).wf(),
            old(self).huge().contains_key(ptr),
            old(self).huge()[ptr] == old(self).spec_huge_order(layout),
        ensures
            final(self).wf(),
            final(self).same_small(*old(self)),
            forall|j: int, q: usize| final(self).is_live(j, q) == old(self).is_live(j, q),
            final(self).frames().spec_page_size() == old(self).frames().spec_page_size(),
            final(self).frames().spec_base() == old(self).frames().spec_base(),
            final(self).frames().spec_end() == old(self).frames().spec_end(),
            final(self).huge() == old(self).huge().remove(ptr),
            old(self).frames().taken_back(
                old(self).huge_region(ptr, old(self).spec_huge_order(layout)),
                final(self).frames(),
            ),
            final(self).frames().can_alloc(old(self).spec_huge_order(layout)),
            forall|order: nat|
                old(self).frames().can_alloc(order) ==> final(self).frames().can_alloc(order),
            forall|a: int|
                final(self).frames().is_allocated(a) <==> old(self).frames().is_allocated(a)
                    && !old(self).huge_region(ptr, old(self).spec_huge_order(layout)).contains(a),
    {
        let ghost before = *self;
        let order = self.calculate_huge_order(layout);
        let ghost region = before.huge_region(ptr, order as nat);
        proof {
            assert(before.frames().region_allocated(region));
        }
        let bytes = match self.frames.order_size(order) {
            Some(b) => b,
            None => {
                return ;
            },
        };
        let pa = self.translator.va_to_pa(VA::from_value(ptr));
        self.frames.alloc_from_region(PhysMemoryRegion::new(pa, bytes));
        self.huge = Ghost(self.huge@.remove(ptr));
        proof {
            self.lemma_after_huge_dealloc(before, ptr);
        }
    }

    /// What `dealloc` asks: the CPU is set up, and the address is one that
    /// an allocation for the same layout returned and that was not freed
    /// since.
    pub open spec fn can_dealloc(self, cpu: int, ptr: usize, layout: Layout) -> bool {
        &&& self.wf()
        &&& 0 <= cpu < self.cpus().len()
        &&& self.cpus()[cpu].initialised()
        &&& match self.config().class_of(layout) {
            Some(k) => self.is_live(k as int, ptr),
            None => self.huge().contains_key(ptr) && self.huge()[ptr] == self.spec_huge_order(
                layout,
            ),
        }
    }

    /// What freeing an object of a size class does: the object ceases to be
    /// live and nothing else changes about what is live. With room in the
    /// magazine the object is cached and neither slab nor frame allocator
    /// is touched; with a full magazine a slab's lock is taken once, the
    /// object goes to the slab's free list and the upper half of the
    /// magazine follows it.
    pub open spec fn deallocated_small(self, before: KHeap, cpu: int, k: int, ptr: usize) -> bool {
        let cached = before.cpus()[cpu].magazine(k);
        &&& !self.is_live(k, ptr)
        &&& forall|j: int, q: usize|
            (j != k || q != ptr) ==> self.is_live(j, q) == before.is_live(j, q)
        &&& self.same_but(before, cpu, k)
        &&& self.huge() == before.huge()
        &&& self.frames() == before.frames()
        &&& cached.len() < MAGAZINE_CAPACITY ==> {
            &&& self.cpus()[cpu].magazine(k) == cached.push(ptr)
            &&& self.slab_set() == before.slab_set()
        }
        &&& cached.len() >= MAGAZINE_CAPACITY ==> {
            let moved = before.drain_moved(cpu, k);
            &&& self.cpus()[cpu].magazine(k) == cached.take(cached.len() - moved.len())
            &&& self.cpus()[cpu].magazine(k).len() == MAGAZINE_CAPACITY / 2
            &&& self.slab(k).free_list() == moved + seq![ptr] + before.slab(k).free_list()
            &&& self.slab(k).pages() == before.slab(k).pages()
            &&& self.slab_set().spec_locks_taken() == SlabAllocator::count_up(
                before.slab_set().spec_locks_taken(),
            )
        }
    }

    /// What freeing a huge allocation does: its pages go back to the frame
    /// allocator, which can then serve a request of the same order again.
    /// Slabs and magazines stay as they are.
    pub open spec fn deallocated_huge(self, before: KHeap, ptr: usize, layout: Layout) -> bool {
        let order = before.spec_huge_order(layout);
        &&& self.same_small(before)
        &&& forall|j: int, q: usize| self.is_live(j, q) == before.is_live(j, q)
        &&& self.huge() == before.huge().remove(ptr)
        &&& before.frames().taken_back(before.huge_region(ptr, order), self.frames())
        &&& self.frames().can_alloc(order)
        &&& forall|o: nat| before.frames().can_alloc(o) ==> self.frames().can_alloc(o)
        &&& forall|a: int|
            self.frames().is_allocated(a) <==> before.frames().is_allocated(a)
                && !before.huge_region(ptr, order).contains(a)
    }

    /// Frees on CPU `cpu` the memory at `ptr`, which an allocation for the
    /// same layout returned.
    pub fn dealloc(&mut self, cpu: usize, ptr: usize, layout: Layout)
        requires
            old(self).can_dealloc(cpu as int, ptr, layout),
        ensures
            final(self).wf(),
            final(self).same_cpu_flags(*old(self)),
            final(self).frames().spec_base() == old(self).frames().spec_base(),
            final(self).frames().spec_end() == old(self).frames().spec_end(),
            match old(self).config().class_of(layout) {
                Some(k) => final(self).deallocated_small(*old(self), cpu as int, k as int, ptr),
                None => final(self).deallocated_huge(*old(self), ptr, layout),
            },
    {
        let ghost before = *self;
        let flags = self.cpus[cpu].get();
        let ghost entered = *self;
        proof {
            entered.lemma_same_objects(before);
            before.config().lemma_class_of(layout);
        }
        match self.config.classify(layout) {
            None => {
                self.dealloc_huge(ptr, layout);
            },
            Some(class) => {
                let ghost k = class as int;
                proof {
                    assert(entered.cpus()[cpu as int].magazine(k)
                        == before.cpus()[cpu as int].magazine(k));
                    assert(entered.cpus()[cpu as int].wf(entered.config()));
                    entered.cpus()[cpu as int].bundle().caches()[k].lemma_len();
                }
                if self.dealloc_fast(cpu, ptr, layout) {
                    proof {
                        self.lemma_after_push(entered, cpu as int, k, ptr);
                    }
                } else {
                    let ghost full = *self;
                    proof {
                        full.lemma_unchanged(entered, cpu as int, k);
                        full.lemma_same_objects(entered);
                    }
                    self.dealloc_slow(cpu, ptr, layout);
                    proof {
                        let moved = full.drain_moved(cpu as int, k);
                        self.lemma_after_drain(full, cpu as int, k, ptr, moved);
                        self.lemma_chain(full, entered, cpu as int, k);
                        assert(full.slab(k) == before.slab(k));
                    }
                }
            },
        }
        let ghost served = *self;
        self.cpus[cpu].restore_interrupt_state(flags);
        proof {
            self.lemma_same_objects(served);
            match before.config().class_of(layout) {
                Some(k) => {
                    let k = k as int;
                    self.lemma_chain_flags(served, entered, before, cpu as int, k);
                    assert(self.cpus()[cpu as int].magazine(k) == served.cpus()[cpu as int].magazine(
                        k,
                    ));
                    assert(self.slab(k) == served.slab(k));
                },
                None => {
                    assert(self.cpus() =~= before.cpus());
                },
            }
        }
    }

    /// Sets up CPU `cpu`: claims one zeroed page, makes it the CPU's bundle
    /// of empty magazines and keeps the page allocated for good.
    pub fn init_for_this_cpu(&mut self, cpu: usize)
        requires
            old(self).wf(),
            cpu < old(self).cpus().len(),
            !old(self).cpus()[cpu as int].initialised(),
            old(self).frames().can_alloc(0),
        ensures
            final(self).wf(),
            final(self).config() == old(self).config(),
            final(self).translator() == old(self).translator(),
            final(self).slab_set() == old(self).slab_set(),
            final(self).huge() == old(self).huge(),
            final(self).cpus().len() == old(self).cpus().len(),
            forall|c: int|
                0 <= c < final(self).cpus().len() && c != cpu ==> #[trigger] final(self).cpus()[c]
                    == old(self).cpus()[c],
            final(self).cpus()[cpu as int].initialised(),
            final(self).cpus()[cpu as int].irq_masked() == old(self).cpus()[cpu as int].irq_masked(),
            forall|k: int|
                0 <= k < final(self).num_classes() ==> (#[trigger] final(self).cpus()[cpu as int].magazine(
                    k,
                )).len() == 0,
            forall|j: int, q: usize| final(self).is_live(j, q) == old(self).is_live(j, q),
            old(self).frames().served(0, final(self).frames()),
            forall|a: int|
                final(self).frames().is_allocated(a) <==> old(self).frames().is_allocated(a) || (
                old(self).frames().spec_pick(0) <= a < old(self).frames().spec_pick(0) + old(
                    self,
                ).config().spec_page_size()),
    {
        let ghost before = *self;
        let page = match ClaimedPage::alloc_zeroed(&mut self.frames, &self.translator) {
            Ok(page) => page,
            Err(_) => {
                return ;
            },
        };
        let bundle = SlabCache::from_page(page, self.config);
        self.cpus[cpu].install(bundle);
        proof {
            self.lemma_after_init(before, cpu as int);
        }
    }

}

/// Rounding a byte count up to whole pages: the quotient, and one more where
/// a remainder is left.
pub proof fn lemma_pages_needed(bytes: nat, page_size: nat)
    requires
        page_size > 0,
    ensures
        pages_needed(bytes, page_size) == (if bytes % page_size == 0 {
            bytes / page_size
        } else {
            bytes / page_size + 1
        }),
        pages_needed(bytes, page_size) * page_size >= bytes,
        pages_needed(bytes, page_size) <= bytes,
{
    let d = page_size as int;
    let q = bytes as int / d;
    let r = bytes as int % d;
    vstd::arithmetic::div_mod::lemma_fundamental_div_mod(bytes as int, d);
    if r == 0 {
        assert(bytes + d - 1 == q * d + (d - 1)) by (nonlinear_arith)
            requires
                bytes == d * q + r,
                r == 0,
        ;
        vstd::arithmetic::div_mod::lemma_fundamental_div_mod_converse(bytes + d - 1, d, q, d - 1);
        assert(q * d >= bytes) by (nonlinear_arith)
            requires
                bytes == d * q + r,
                r == 0,
        ;
    } else {
        assert(bytes + d - 1 == (q + 1) * d + (r - 1)) by (nonlinear_arith)
            requires
                bytes == d * q + r,
        ;
        vstd::arithmetic::div_mod::lemma_fundamental_div_mod_converse(
            bytes + d - 1,
            d,
            q + 1,
            r - 1,
        );
        assert((q + 1) * d >= bytes) by (nonlinear_arith)
            requires
                bytes == d * q + r,
                r < d,
        ;
    }
    assert(pages_needed(bytes, page_size) <= bytes) by (nonlinear_arith)
        requires
            bytes == d * q + r,
            0 <= r < d,
            d >= 1,
            q >= 0,
            pages_needed(bytes, page_size) == (if r == 0 {
                q
            } else {
                q + 1
            }),
    ;
}

} // verus!
