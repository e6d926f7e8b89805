//! Per-CPU magazines: small stacks of free objects, one per size class.

use crate::address::PageFrame;
use crate::layout::Layout;
use crate::page::ClaimedPage;
use crate::params::{HeapConfig, MAGAZINE_CAPACITY};
use crate::slab::SlabManager;
use vstd::prelude::*;

verus! {

/// A magazine: a stack of at most `MAGAZINE_CAPACITY` object addresses. The
/// address cached last is handed out first.
#[derive(Debug)]
pub struct PtrCache {
    next_free: usize,
    ptrs: [usize; 32],
}

impl View for PtrCache {
    type V = Seq<usize>;

    /// The cached addresses, bottom of the stack first.
    closed spec fn view(&self) -> Seq<usize> {
        self.ptrs@.take(self.next_free as int)
    }
}

impl PtrCache {
    /// The invariant of a magazine.
    pub closed spec fn wf(&self) -> bool {
        self.next_free <= MAGAZINE_CAPACITY
    }

    /// A magazine never holds more than its capacity.
    pub proof fn lemma_len(&self)
        requires
            self.wf(),
        ensures
            self@.len() <= MAGAZINE_CAPACITY,
    {
    }

    /// An empty magazine.
    pub fn new() -> (r: PtrCache)
        ensures
            r.wf(),
            r@ == Seq::<usize>::empty(),
    {
        PtrCache { next_free: 0, ptrs: [0usize; 32] }
    }

    /// Whether nothing is cached.
    pub fn is_empty(&self) -> (r: bool)
        requires
            self.wf(),
        ensures
            r == (self@.len() == 0),
    {
        self.next_free == 0
    }

    /// Whether no more can be cached.
    pub fn is_full(&self) -> (r: bool)
        requires
            self.wf(),
        ensures
            r == (self@.len() == MAGAZINE_CAPACITY),
    {
        self.next_free == MAGAZINE_CAPACITY
    }

    /// Number of cached addresses.
    pub fn len(&self) -> (r: usize)
        requires
            self.wf(),
        ensures
            r == self@.len(),
    {
        self.next_free
    }

    /// Hands out the address cached last; `None` where nothing is cached.
    pub fn allocate(&mut self) -> (r: Option<usize>)
        requires
            old(self).wf(),
        ensures
            final(self).wf(),
            r.is_none() <==> old(self)@.len() == 0,
            r.is_none() ==> final(self)@ == old(self)@,
            r matches Some(p) ==> p == old(self)@.last() && final(self)@ == old(self)@.drop_last(),
    {
        if self.is_empty() {
            return None;
        }
        self.next_free = self.next_free - 1;
        let p = self.ptrs[self.next_free];
        assert(self@ =~= old(self)@.drop_last());
        Some(p)
    }

    /// Caches an address; where the magazine is full, gives the address back
    /// and changes nothing.
    pub fn free(&mut self, ptr: usize) -> (r: Result<(), usize>)
        requires
            old(self).wf(),
        ensures
            final(self).wf(),
            r.is_err() <==> old(self)@.len() == MAGAZINE_CAPACITY,
            r matches Err(p) ==> p == ptr && final(self)@ == old(self)@,
            r.is_ok() ==> final(self)@ == old(self)@.push(ptr),
    {
        if self.is_full() {
            return Err(ptr);
        }
        self.ptrs[self.next_free] = ptr;
        self.next_free = self.next_free + 1;
        assert(self@ =~= old(self)@.push(ptr));
        Ok(())
    }

    /// How many objects `fill_from` moves: as many as the magazine has room
    /// for, or all the slab has free.
    pub open spec fn fill_count(cached: Seq<usize>, free: Seq<usize>) -> nat {
        let room = (MAGAZINE_CAPACITY - cached.len()) as nat;
        if room <= free.len() {
            room
        } else {
            free.len()
        }
    }

    /// Moves free objects of the slab into the magazine, from the head of the
    /// free list, until the magazine is full or the list is empty. Never
    /// makes the slab grow.
    pub fn fill_from(&mut self, slab_alloc: &mut SlabManager)
        requires
            old(self).wf(),
            old(slab_alloc).wf(),
        ensures
            final(self).wf(),
            final(slab_alloc).wf(),
            final(slab_alloc).spec_object_size() == old(slab_alloc).spec_object_size(),
            final(slab_alloc).spec_page_size() == old(slab_alloc).spec_page_size(),
            final(slab_alloc).pages() == old(slab_alloc).pages(),
            final(self)@ == old(self)@ + old(slab_alloc).free_list().take(
                Self::fill_count(old(self)@, old(slab_alloc).free_list()) as int,
            ),
            final(slab_alloc).free_list() == old(slab_alloc).free_list().skip(
                Self::fill_count(old(self)@, old(slab_alloc).free_list()) as int,
            ),
            forall|q: usize|
                #[trigger] final(slab_alloc).is_taken(q) <==> old(slab_alloc).is_taken(q) || old(
                    slab_alloc,
                ).free_list().take(
                    Self::fill_count(old(self)@, old(slab_alloc).free_list()) as int,
                ).contains(q),
    {
        let ghost cached = self@;
        let ghost free = slab_alloc.free_list();
        let ghost mut moved: int = 0;
        while !self.is_full() && !slab_alloc.is_exhausted()
            invariant
                self.wf(),
                slab_alloc.wf(),
                cached.len() <= MAGAZINE_CAPACITY,
                slab_alloc.spec_object_size() == old(slab_alloc).spec_object_size(),
                slab_alloc.spec_page_size() == old(slab_alloc).spec_page_size(),
                slab_alloc.pages() == old(slab_alloc).pages(),
                0 <= moved <= free.len(),
                moved <= MAGAZINE_CAPACITY - cached.len(),
                self@ == cached + free.take(moved),
                slab_alloc.free_list() == free.skip(moved),
                free == old(slab_alloc).free_list(),
                forall|q: usize|
                    #[trigger] slab_alloc.is_taken(q) <==> old(slab_alloc).is_taken(q) || free.take(
                        moved,
                    ).contains(q),
            decreases MAGAZINE_CAPACITY - self@.len(),
        {
            let p = match slab_alloc.try_alloc() {
                Some(p) => p,
                None => 0,
            };
            self.ptrs[self.next_free] = p;
            self.next_free = self.next_free + 1;
            proof {
                assert(p == free[moved]);
                let was = free.take(moved);
                let now = free.take(moved + 1);
                assert forall|q: usize|
                    #[trigger] slab_alloc.is_taken(q) <==> old(slab_alloc).is_taken(q) || now.contains(q) by {
                    if now.contains(q) {
                        let j = choose|j: int| 0 <= j < now.len() && now[j] == q;
                        if j < moved {
                            assert(was[j] == q);
                        }
                    }
                    if was.contains(q) {
                        let j = choose|j: int| 0 <= j < was.len() && was[j] == q;
                        assert(now[j] == q);
                    }
                    if q == p {
                        assert(now[moved] == q);
                    }
                }
                assert(self@ =~= (cached + free.take(moved)).push(p));
                assert(free.take(moved).push(p) =~= free.take(moved + 1));
                assert(self@ =~= cached + free.take(moved + 1));
                assert(free.skip(moved).skip(1) =~= free.skip(moved + 1));
                moved = moved + 1;
            }
        }
        proof {
            assert(moved == Self::fill_count(cached, free));
        }
    }

    /// How many objects `drain_into` moves: half of what is cached.
    pub open spec fn drain_count(cached: Seq<usize>) -> nat {
        cached.len() / 2
    }

    /// Whether the slab can take back the upper half of the magazine: each
    /// of those addresses is an object of the slab, is not free already, and
    /// is cached once.
    pub open spec fn drainable(cached: Seq<usize>, slab_alloc: SlabManager) -> bool {
        let keep = cached.len() - Self::drain_count(cached);
        &&& forall|i: int|
            keep <= i < cached.len() ==> slab_alloc.is_slot(#[trigger] cached[i] as int)
                && !slab_alloc.free_list().contains(cached[i])
        &&& forall|i: int, j: int|
            keep <= i < cached.len() && keep <= j < cached.len() && i != j ==> cached[i]
                != cached[j]
    }

    /// Frees half of the cached objects into the slab, the one cached last
    /// first.
    pub fn drain_into(&mut self, slab_alloc: &mut SlabManager)
        requires
            old(self).wf(),
            old(slab_alloc).wf(),
            Self::drainable(old(self)@, *old(slab_alloc)),
        ensures
            final(self).wf(),
            final(slab_alloc).wf(),
            final(slab_alloc).spec_object_size() == old(slab_alloc).spec_object_size(),
            final(slab_alloc).spec_page_size() == old(slab_alloc).spec_page_size(),
            final(slab_alloc).pages() == old(slab_alloc).pages(),
            final(self)@ == old(self)@.take(old(self)@.len() - Self::drain_count(old(self)@)),
            final(slab_alloc).free_list() == old(self)@.skip(
                old(self)@.len() - Self::drain_count(old(self)@),
            ) + old(slab_alloc).free_list(),
            forall|q: usize|
                #[trigger] final(slab_alloc).is_taken(q) <==> old(slab_alloc).is_taken(q) && !old(self)@.skip(
                    old(self)@.len() - Self::drain_count(old(self)@),
                ).contains(q),
    {
        let ghost cached = self@;
        let ghost free = slab_alloc.free_list();
        let ghost before = *slab_alloc;
        let n = self.next_free / 2;
        let mut i: usize = 0;
        while i < n
            invariant
                self.wf(),
                slab_alloc.wf(),
                before.wf(),
                i <= n,
                n == cached.len() / 2,
                self.next_free == cached.len() - i,
                self.ptrs == old(self).ptrs,
                old(self).wf(),
                cached == old(self)@,
                free == before.free_list(),
                Self::drainable(cached, before),
                slab_alloc.spec_object_size() == before.spec_object_size(),
                slab_alloc.spec_page_size() == before.spec_page_size(),
                slab_alloc.pages() == before.pages(),
                slab_alloc.free_list() == cached.skip(cached.len() - i) + free,
                forall|q: usize|
                    #[trigger] slab_alloc.is_taken(q) <==> before.is_taken(q) && !cached.skip(
                        cached.len() - i,
                    ).contains(q),
            decreases n - i,
        {
            self.next_free = self.next_free - 1;
            let p = self.ptrs[self.next_free];
            proof {
                let at = self.next_free as int;
                assert(p == cached[at]);
                before.lemma_slot_kept(*slab_alloc, p as int);
                if slab_alloc.free_list().contains(p) {
                    let j = choose|j: int|
                        0 <= j < slab_alloc.free_list().len() && slab_alloc.free_list()[j] == p;
                    if j < i {
                        assert(cached.skip(cached.len() - i)[j] == cached[cached.len() - i + j]);
                    } else {
                        assert(free[j - i] == p);
                        assert(free.contains(p));
                    }
                }
            }
            let ghost mid = *slab_alloc;
            slab_alloc.free(p);
            proof {
                let was = cached.skip(cached.len() - i);
                let now = cached.skip(cached.len() - i - 1);
                assert(now[0] == p);
                assert forall|q: usize|
                    #[trigger] slab_alloc.is_taken(q) <==> before.is_taken(q) && !now.contains(q) by {
                    assert(slab_alloc.is_taken(q) <==> mid.is_taken(q) && q != p);
                    assert(mid.is_taken(q) <==> before.is_taken(q) && !was.contains(q));
                    if now.contains(q) && q != p {
                        let j = choose|j: int| 0 <= j < now.len() && now[j] == q;
                        assert(was[j - 1] == q);
                    }
                    if was.contains(q) {
                        let j = choose|j: int| 0 <= j < was.len() && was[j] == q;
                        assert(now[j + 1] == q);
                    }
                    if q == p {
                        assert(now.contains(q));
                    }
                }
                assert(seq![p] + cached.skip(cached.len() - i) =~= cached.skip(
                    cached.len() - i - 1,
                ));
                assert(slab_alloc.free_list() =~= cached.skip(cached.len() - (i + 1)) + free);
            }
            i = i + 1;
        }
        assert(self@ =~= cached.take(cached.len() - n));
        proof {
            let moved = old(self)@.skip(old(self)@.len() - Self::drain_count(old(self)@));
            assert(cached.skip(cached.len() - i) == moved);
            assert forall|q: usize|
                #[trigger] slab_alloc.is_taken(q) <==> old(slab_alloc).is_taken(q) && !moved.contains(q) by {
                assert(slab_alloc.is_taken(q) <==> before.is_taken(q) && !cached.skip(
                    cached.len() - i,
                ).contains(q));
            }
        }
    }
}

impl Default for PtrCache {
    fn default() -> (r: PtrCache)
        ensures
            r.wf(),
            r@ == Seq::<usize>::empty(),
    {
        PtrCache::new()
    }
}

/// The magazines of one CPU: one per size class, kept in a page of their
/// own.
#[derive(Debug)]
pub struct SlabCache {
    config: HeapConfig,
    frame: PageFrame,
    caches: Vec<PtrCache>,
}

impl SlabCache {
    /// The parameters the bundle was made for.
    pub closed spec fn spec_config(self) -> HeapConfig {
        self.config
    }

    /// The page the bundle is kept in.
    pub closed spec fn spec_frame(self) -> PageFrame {
        self.frame
    }

    /// The magazines, by size class.
    pub closed spec fn caches(self) -> Seq<PtrCache> {
        self.caches@
    }

    /// The invariant of a bundle: one well-formed magazine per size class.
    pub open spec fn wf(self) -> bool {
        &&& self.spec_config().wf()
        &&& self.caches().len() == self.spec_config().spec_num_classes()
        &&& forall|k: int| 0 <= k < self.caches().len() ==> (#[trigger] self.caches()[k]).wf()
    }

    /// Sets up a bundle in a claimed page: every magazine empty. The page
    /// stays allocated for good.
    pub fn from_page(page: ClaimedPage, config: HeapConfig) -> (r: SlabCache)
        requires
            page.wf(),
            config.wf(),
        ensures
            r.wf(),
            r.spec_config() == config,
            r.spec_frame().0 == page.spec_pa().0 / (page.spec_size() as usize),
            forall|k: int| 0 <= k < r.caches().len() ==> (#[trigger] r.caches()[k])@.len() == 0,
    {
        let n = config.num_classes();
        let mut caches: Vec<PtrCache> = Vec::new();
        let mut i: usize = 0;
        while i < n
            invariant
                i <= n,
                caches@.len() == i,
                forall|k: int| 0 <= k < i ==> (#[trigger] caches@[k]).wf() && caches@[k]@.len() == 0,
            decreases n - i,
        {
            caches.push(PtrCache::new());
            i = i + 1;
        }
        let frame = page.leak();
        SlabCache { config, frame, caches }
    }

    /// The page the bundle is kept in.
    pub fn frame(&self) -> (r: PageFrame)
        ensures
            r == self.spec_frame(),
    {
        self.frame
    }

    /// A look at the magazine for a layout's size class; `None` where the
    /// layout has none.
    pub fn peek_cache(&self, layout: Layout) -> (r: Option<&PtrCache>)
        requires
            self.wf(),
        ensures
            r.is_some() <==> self.spec_config().class_of(layout).is_some(),
            r matches Some(c) ==> *c == self.caches()[self.spec_config().class_of(
                layout,
            ).unwrap() as int],
    {
        match self.config.classify(layout) {
            Some(k) => {
                proof {
                    self.config.lemma_class_of(layout);
                }
                Some(&self.caches[k])
            },
            None => None,
        }
    }

    /// The magazine for a layout's size class; `None` where the layout has
    /// none.
    pub fn get_cache(&mut self, layout: Layout) -> (r: Option<&mut PtrCache>)
        requires
            old(self).wf(),
        ensures
            final(self).spec_config() == old(self).spec_config(),
            final(self).spec_frame() == old(self).spec_frame(),
            r.is_some() <==> old(self).spec_config().class_of(layout).is_some(),
            r.is_none() ==> final(self).caches() == old(self).caches(),
            r matches Some(c) ==> {
                let k = old(self).spec_config().class_of(layout).unwrap() as int;
                &&& *c == old(self).caches()[k]
                &&& final(self).caches() == old(self).caches().update(k, *final(c))
            },
    {
        match self.config.classify(layout) {
            Some(k) => {
                proof {
                    self.config.lemma_class_of(layout);
                }
                Some(&mut self.caches[k])
            },
            None => None,
        }
    }
}

} // verus!
