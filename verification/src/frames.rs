//! The frame allocator: hands out runs of physical pages by order and takes
//! them back.

use crate::address::{PhysMemoryRegion, PA};
use crate::align::{is_aligned, lemma_aligned_add, lemma_aligned_def, lemma_aligned_scaled};
use vstd::arithmetic::power2::{lemma_pow2_pos, lemma_pow2_unfold, pow2};
use vstd::prelude::*;

verus! {

/// A run of pages taken from the frame allocator.
#[derive(Debug)]
pub struct PageAllocation {
    region: PhysMemoryRegion,
}

impl PageAllocation {
    /// The memory this allocation covers.
    pub closed spec fn spec_region(self) -> PhysMemoryRegion {
        self.region
    }

    /// The memory this allocation covers.
    pub fn region(&self) -> (r: PhysMemoryRegion)
        ensures
            r == self.spec_region(),
    {
        self.region
    }

    /// Gives up the handle and keeps the memory allocated.
    pub fn leak(self) -> (r: PhysMemoryRegion)
        ensures
            r == self.spec_region(),
    {
        self.region
    }
}

/// Manages the physical memory `[base, end)` in pages. Pages that were never
/// handed out lie above a bump pointer; runs that were given back wait on a
/// list and are handed out again to a request of the same size.
#[derive(Debug)]
pub struct FrameAllocator {
    page_size: usize,
    base: usize,
    end: usize,
    next: usize,
    free: Vec<PhysMemoryRegion>,
}

impl FrameAllocator {
    /// Bytes in a page.
    pub closed spec fn spec_page_size(self) -> nat {
        self.page_size as nat
    }

    /// First byte managed.
    pub closed spec fn spec_base(self) -> nat {
        self.base as nat
    }

    /// One past the last byte managed.
    pub closed spec fn spec_end(self) -> nat {
        self.end as nat
    }

    /// Where the memory that was never handed out starts.
    pub closed spec fn spec_next(self) -> nat {
        self.next as nat
    }

    /// The runs that were given back and not handed out again, in the order
    /// in which they came back.
    pub closed spec fn free_runs(self) -> Seq<PhysMemoryRegion> {
        self.free@
    }

    /// Bytes in a run of the given order.
    pub open spec fn order_bytes(self, order: nat) -> nat {
        self.spec_page_size() * pow2(order)
    }

    /// Whether a byte lies in a run that was given back and not handed out
    /// again.
    pub open spec fn in_free(self, a: int) -> bool {
        exists|i: int|
            0 <= i < self.free_runs().len() && (#[trigger] self.free_runs()[i]).contains(a)
    }

    /// Whether a byte is currently handed out: it lies below the memory that
    /// was never handed out, and in no run that was given back.
    #[verifier::opaque]
    pub open spec fn is_allocated(self, a: int) -> bool {
        self.spec_base() <= a < self.spec_next() && !self.in_free(a)
    }

    /// Whether every byte of a region is currently handed out.
    pub open spec fn region_allocated(self, r: PhysMemoryRegion) -> bool {
        forall|a: int| r.contains(a) ==> self.is_allocated(a)
    }

    /// Whether no byte of a region is currently handed out.
    pub open spec fn region_unallocated(self, r: PhysMemoryRegion) -> bool {
        forall|a: int| r.contains(a) ==> !self.is_allocated(a)
    }

    /// The invariant of the allocator.
    pub closed spec fn wf(self) -> bool {
        &&& self.page_size > 0
        &&& self.base > 0
        &&& is_aligned(self.base as int, self.page_size as int)
        &&& is_aligned(self.next as int, self.page_size as int)
        &&& self.base <= self.next <= self.end
        &&& forall|i: int|
            0 <= i < self.free@.len() ==> {
                &&& (#[trigger] self.free@[i]).size > 0
                &&& is_aligned(self.free@[i].start.0 as int, self.page_size as int)
                &&& is_aligned(self.free@[i].size as int, self.page_size as int)
                &&& self.base <= self.free@[i].start.0
                &&& self.free@[i].start.0 + self.free@[i].size <= self.next
            }
        &&& forall|i: int, j: int|
            0 <= i < self.free@.len() && 0 <= j < self.free@.len() && i != j ==> (
            #[trigger] self.free@[i]).disjoint(#[trigger] self.free@[j])
    }

    /// The place of the first run of `bytes` bytes among those given back,
    /// if there is one.
    pub open spec fn first_fit(self, bytes: nat) -> Option<int> {
        if exists|i: int|
            0 <= i < self.free_runs().len() && (#[trigger] self.free_runs()[i]).size == bytes {
            Some(
                choose|i: int|
                    0 <= i < self.free_runs().len() && (#[trigger] self.free_runs()[i]).size
                        == bytes && forall|j: int|
                        0 <= j < i ==> (#[trigger] self.free_runs()[j]).size != bytes,
            )
        } else {
            None
        }
    }

    /// Whether a request of the given order would be served: a run of that
    /// size waits on the list, or enough never-used memory is left.
    pub open spec fn can_alloc(self, order: nat) -> bool {
        self.first_fit(self.order_bytes(order)).is_some() || self.spec_next() + self.order_bytes(
            order,
        ) <= self.spec_end()
    }

    /// Whether `after` is what the allocator is once it has served a request
    /// of the given order: the run it picked has left the list of runs given
    /// back, or the memory that was never handed out starts that much
    /// higher.
    pub open spec fn served(self, order: nat, after: FrameAllocator) -> bool {
        &&& after.spec_page_size() == self.spec_page_size()
        &&& after.spec_base() == self.spec_base()
        &&& after.spec_end() == self.spec_end()
        &&& match self.first_fit(self.order_bytes(order)) {
            Some(i) => {
                &&& after.free_runs() == self.free_runs().remove(i)
                &&& after.spec_next() == self.spec_next()
            },
            None => {
                &&& after.free_runs() == self.free_runs()
                &&& after.spec_next() == self.spec_next() + self.order_bytes(order)
            },
        }
    }

    /// Whether `after` is what the allocator is once a run has been given
    /// back to it: the run is the last on the list of runs given back.
    pub open spec fn taken_back(self, region: PhysMemoryRegion, after: FrameAllocator) -> bool {
        &&& after.spec_page_size() == self.spec_page_size()
        &&& after.spec_base() == self.spec_base()
        &&& after.spec_end() == self.spec_end()
        &&& after.spec_next() == self.spec_next()
        &&& after.free_runs() == self.free_runs().push(region)
    }

    /// Nothing outside the managed memory is ever handed out.
    pub proof fn lemma_allocated_in_bounds(self, a: int)
        requires
            self.wf(),
            self.is_allocated(a),
        ensures
            0 < self.spec_base() <= a < self.spec_end(),
            self.spec_page_size() > 0,
            is_aligned(self.spec_base() as int, self.spec_page_size() as int),
    {
        reveal(FrameAllocator::is_allocated);
    }

    /// A run whose bytes are handed out lies in the managed memory.
    pub proof fn lemma_region_in_bounds(self, r: PhysMemoryRegion)
        requires
            self.wf(),
            r.size > 0,
            self.region_allocated(r),
        ensures
            0 < self.spec_base() <= r.start.0,
            r.start.0 + r.size <= self.spec_end(),
    {
        reveal(FrameAllocator::is_allocated);
        assert(r.contains(r.start.0 as int));
        assert(r.contains(r.start.0 + r.size - 1));
        assert(self.is_allocated(r.start.0 as int));
        assert(self.is_allocated(r.start.0 + r.size - 1));
    }

    /// Takes charge of `[base, base + size)`, all of it free.
    pub fn new(page_size: usize, base: PA, size: usize) -> (r: Option<FrameAllocator>)
        ensures
            r.is_some() <==> page_size > 0 && base.0 > 0 && is_aligned(base.0 as int, page_size as int)
                && base.0 + size <= usize::MAX,
            r matches Some(f) ==> {
                &&& f.wf()
                &&& f.spec_page_size() == page_size
                &&& f.spec_base() == base.0
                &&& f.spec_end() == base.0 + size
                &&& f.spec_next() == base.0
                &&& f.free_runs() == Seq::<PhysMemoryRegion>::empty()
                &&& forall|a: int| !f.is_allocated(a)
                &&& forall|order: nat|
                    f.can_alloc(order) <==> f.order_bytes(order) <= size
            },
    {
        proof {
            reveal(FrameAllocator::is_allocated);
            lemma_aligned_def(base.0 as int, page_size as int);
        }
        if page_size == 0 || base.0 == 0 || base.0 % page_size != 0 || size > usize::MAX - base.0 {
            return None;
        }
        let f = FrameAllocator {
            page_size,
            base: base.0,
            end: base.0 + size,
            next: base.0,
            free: Vec::new(),
        };
        Some(f)
    }

    /// Bytes in a page.
    pub fn page_size(&self) -> (r: usize)
        ensures
            r == self.spec_page_size(),
    {
        self.page_size
    }

    /// Bytes in a run of the given order, or `None` where that many do not
    /// fit in an address.
    pub fn order_size(&self, order: usize) -> (r: Option<usize>)
        requires
            self.wf(),
        ensures
            r.is_some() <==> self.order_bytes(order as nat) <= usize::MAX,
            r matches Some(b) ==> b == self.order_bytes(order as nat),
    {
        let mut b: usize = self.page_size;
        let mut i: usize = 0;
        proof {
            vstd::arithmetic::power2::lemma2_to64();
        }
        while i < order
            invariant
                self.wf(),
                i <= order,
                b == self.page_size * pow2(i as nat),
                b > 0,
            decreases order - i,
        {
            proof {
                lemma_pow2_unfold((i + 1) as nat);
                let x = pow2(i as nat) as int;
                let ps = self.page_size as int;
                assert(ps * (2 * x) == 2 * (ps * x)) by (nonlinear_arith);
            }
            if b > usize::MAX / 2 {
                proof {
                    crate::params::lemma_pow2_monotonic((i + 1) as nat, order as nat);
                    let ps = self.page_size as int;
                    let lo = pow2((i + 1) as nat) as int;
                    let hi = pow2(order as nat) as int;
                    assert(ps * lo <= ps * hi) by (nonlinear_arith)
                        requires
                            ps > 0,
                            lo <= hi,
                    ;
                }
                return None;
            }
            b = b * 2;
            i = i + 1;
        }
        Some(b)
    }

    /// Whether a request of the given order would be served.
    pub fn has_frames(&self, order: usize) -> (r: bool)
        requires
            self.wf(),
        ensures
            r == self.can_alloc(order as nat),
    {
        let bytes = match self.order_size(order) {
            Some(b) => b,
            None => {
                proof {
                    if self.first_fit(self.order_bytes(order as nat)).is_some() {
                        let i = choose|i: int|
                            0 <= i < self.free_runs().len() && (#[trigger] self.free_runs()[i]).size
                                == self.order_bytes(order as nat);
                    }
                }
                return false;
            },
        };
        let mut i: usize = 0;
        while i < self.free.len()
            invariant
                i <= self.free@.len(),
                bytes == self.order_bytes(order as nat),
                forall|j: int| 0 <= j < i ==> (#[trigger] self.free_runs()[j]).size != bytes,
            decreases self.free@.len() - i,
        {
            if self.free[i].size == bytes {
                assert(self.free_runs()[i as int].size == bytes);
                return true;
            }
            i = i + 1;
        }
        bytes <= self.end - self.next
    }

    /// Whether the byte at a physical address is currently handed out.
    pub fn is_frame_allocated(&self, pa: PA) -> (r: bool)
        requires
            self.wf(),
        ensures
            r == self.is_allocated(pa.0 as int),
    {
        proof {
            reveal(FrameAllocator::is_allocated);
        }
        if pa.0 < self.base || pa.0 >= self.next {
            return false;
        }
        let mut i: usize = 0;
        while i < self.free.len()
            invariant
                self.wf(),
                i <= self.free@.len(),
                forall|j: int|
                    0 <= j < i ==> !(#[trigger] self.free_runs()[j]).contains(pa.0 as int),
            decreases self.free@.len() - i,
        {
            let start = self.free[i].start.0;
            if start <= pa.0 && pa.0 - start < self.free[i].size {
                proof {
                    reveal(FrameAllocator::is_allocated);
                    assert(self.free_runs()[i as int].contains(pa.0 as int));
                }
                return false;
            }
            i = i + 1;
        }
        proof {
            reveal(FrameAllocator::is_allocated);
        }
        true
    }

    /// The first byte of the run that a request of the given order receives:
    /// the first run of that size among those given back, else the memory
    /// that was never handed out.
    pub open spec fn spec_pick(self, order: nat) -> int {
        match self.first_fit(self.order_bytes(order)) {
            Some(i) => self.free_runs()[i].start.0 as int,
            None => self.spec_next() as int,
        }
    }

    /// Hands out a run of `2^order` pages: the first run of that size on the
    /// list of runs given back, else the next never-used memory; `None`
    /// where neither is to be had.
    pub fn alloc_frames(&mut self, order: usize) -> (r: Option<PageAllocation>)
        requires
            old(self).wf(),
        ensures
            final(self).wf(),
            final(self).spec_page_size() == old(self).spec_page_size(),
            final(self).spec_base() == old(self).spec_base(),
            final(self).spec_end() == old(self).spec_end(),
            r.is_some() <==> old(self).can_alloc(order as nat),
            r.is_none() ==> *final(self) == *old(self),
            r matches Some(p) ==> {
                let region = p.spec_region();
                &&& region.start.0 == old(self).spec_pick(order as nat)
                &&& region.size == old(self).order_bytes(order as nat)
                &&& region.size >= old(self).spec_page_size() > 0
                &&& is_aligned(region.start.0 as int, old(self).spec_page_size() as int)
                &&& is_aligned(region.size as int, old(self).spec_page_size() as int)
                &&& old(self).spec_base() <= region.start.0
                &&& region.start.0 + region.size <= old(self).spec_end()
                &&& old(self).region_unallocated(region)
                &&& forall|a: int|
                    final(self).is_allocated(a) <==> old(self).is_allocated(a) || region.contains(
                        a,
                    )
                &&& old(self).served(order as nat, *final(self))
            },
    {
        let bytes = match self.order_size(order) {
            Some(b) => b,
            None => {
                proof {
                    if self.first_fit(self.order_bytes(order as nat)).is_some() {
                        let i = choose|i: int|
                            0 <= i < self.free_runs().len() && (#[trigger] self.free_runs()[i]).size
                                == self.order_bytes(order as nat);
                    }
                }
                return None;
            },
        };
        proof {
            lemma_pow2_pos(order as nat);
            let ps = self.page_size as int;
            let m = pow2(order as nat) as int;
            assert(ps * m >= ps) by (nonlinear_arith)
                requires
                    ps > 0,
                    m >= 1,
            ;
            lemma_aligned_scaled(ps, m);
        }
        let mut i: usize = 0;
        while i < self.free.len()
            invariant
                *self == *old(self),
                self.wf(),
                i <= self.free@.len(),
                bytes == self.order_bytes(order as nat),
                bytes >= self.page_size,
                is_aligned(bytes as int, self.page_size as int),
                forall|j: int| 0 <= j < i ==> (#[trigger] self.free_runs()[j]).size != bytes,
            decreases self.free@.len() - i,
        {
            if self.free[i].size == bytes {
                let region = self.free.remove(i);
                proof {
                    old(self).lemma_reused(*self, i as int, region);
                }
                return Some(PageAllocation { region });
            }
            i = i + 1;
        }
        if bytes <= self.end - self.next {
            let start = self.next;
            self.next = self.next + bytes;
            let region = PhysMemoryRegion { start: PA(start), size: bytes };
            proof {
                lemma_aligned_add(start as int, bytes as int, self.page_size as int);
                old(self).lemma_bumped(*self, region);
            }
            return Some(PageAllocation { region });
        }
        None
    }

    /// Handing out the first run of a size among those given back hands out
    /// the bytes of that run and no others.
    proof fn lemma_reused(self, after: FrameAllocator, idx: int, region: PhysMemoryRegion)
        requires
            self.wf(),
            0 <= idx < self.free_runs().len(),
            region == self.free_runs()[idx],
            forall|j: int| 0 <= j < idx ==> (#[trigger] self.free_runs()[j]).size != region.size,
            after.page_size == self.page_size,
            after.base == self.base,
            after.end == self.end,
            after.next == self.next,
            after.free@ == self.free@.remove(idx),
        ensures
            after.wf(),
            self.first_fit(region.size as nat) == Some(idx),
            self.region_unallocated(region),
            forall|a: int| after.is_allocated(a) <==> self.is_allocated(a) || region.contains(a),
    {
        reveal(FrameAllocator::is_allocated);
        assert forall|k: int| 0 <= k < after.free@.len() implies #[trigger] after.free@[k]
            == self.free@[if k < idx {
            k
        } else {
            k + 1
        }] by {}
        assert forall|a: int| region.contains(a) implies !self.is_allocated(a) by {
            assert(self.free_runs()[idx].contains(a));
        }
        assert forall|a: int|
            after.is_allocated(a) <==> self.is_allocated(a) || region.contains(a) by {
            if region.contains(a) {
                if after.in_free(a) {
                    let k = choose|k: int|
                        0 <= k < after.free_runs().len() && (#[trigger] after.free_runs()[k]).contains(
                            a,
                        );
                    let k0 = if k < idx {
                        k
                    } else {
                        k + 1
                    };
                    assert(self.free@[k0].disjoint(self.free@[idx]));
                }
            } else if self.in_free(a) {
                let k0 = choose|k: int|
                    0 <= k < self.free_runs().len() && (#[trigger] self.free_runs()[k]).contains(a);
                let k = if k0 < idx {
                    k0
                } else {
                    k0 - 1
                };
                assert(after.free_runs()[k].contains(a));
            } else if after.in_free(a) {
                let k = choose|k: int|
                    0 <= k < after.free_runs().len() && (#[trigger] after.free_runs()[k]).contains(
                        a,
                    );
                let k0 = if k < idx {
                    k
                } else {
                    k + 1
                };
                assert(self.free_runs()[k0].contains(a));
            }
        }
        assert(after.wf()) by {
            assert forall|x: int, y: int|
                0 <= x < after.free@.len() && 0 <= y < after.free@.len() && x != y implies (
            #[trigger] after.free@[x]).disjoint(#[trigger] after.free@[y]) by {
                let x0 = if x < idx {
                    x
                } else {
                    x + 1
                };
                let y0 = if y < idx {
                    y
                } else {
                    y + 1
                };
                assert(self.free@[x0].disjoint(self.free@[y0]));
            }
        }
    }

    /// Handing out memory that was never used hands out the bytes of that
    /// run and no others.
    proof fn lemma_bumped(self, after: FrameAllocator, region: PhysMemoryRegion)
        requires
            self.wf(),
            region.start.0 == self.next,
            region.size > 0,
            self.next + region.size <= self.end,
            is_aligned(self.next + region.size, self.page_size as int),
            forall|j: int|
                0 <= j < self.free_runs().len() ==> (#[trigger] self.free_runs()[j]).size
                    != region.size,
            after.page_size == self.page_size,
            after.base == self.base,
            after.end == self.end,
            after.next == self.next + region.size,
            after.free@ == self.free@,
        ensures
            after.wf(),
            self.first_fit(region.size as nat).is_none(),
            self.region_unallocated(region),
            forall|a: int| after.is_allocated(a) <==> self.is_allocated(a) || region.contains(a),
    {
        reveal(FrameAllocator::is_allocated);
        assert forall|a: int|
            after.is_allocated(a) <==> self.is_allocated(a) || region.contains(a) by {
            if after.in_free(a) {
                let k = choose|k: int|
                    0 <= k < after.free_runs().len() && (#[trigger] after.free_runs()[k]).contains(
                        a,
                    );
                assert(self.free_runs()[k].contains(a));
            }
            if self.in_free(a) {
                let k = choose|k: int|
                    0 <= k < self.free_runs().len() && (#[trigger] self.free_runs()[k]).contains(a);
                assert(after.free_runs()[k].contains(a));
            }
        }
    }

    /// Takes back a run that was handed out and leaked: every byte of it is
    /// free again, and a request of its size will be served.
    pub fn alloc_from_region(&mut self, region: PhysMemoryRegion)
        requires
            old(self).wf(),
            region.size > 0,
            is_aligned(region.start.0 as int, old(self).spec_page_size() as int),
            is_aligned(region.size as int, old(self).spec_page_size() as int),
            old(self).region_allocated(region),
        ensures
            final(self).wf(),
            final(self).spec_page_size() == old(self).spec_page_size(),
            final(self).spec_base() == old(self).spec_base(),
            final(self).spec_end() == old(self).spec_end(),
            old(self).taken_back(region, *final(self)),
            forall|a: int|
                final(self).is_allocated(a) <==> old(self).is_allocated(a) && !region.contains(a),
            forall|order: nat|
                old(self).can_alloc(order) || region.size == old(self).order_bytes(order)
                    ==> final(self).can_alloc(order),
    {
        self.free.push(region);
        proof {
            old(self).lemma_given_back(*self, region);
        }
    }

    /// A run that is given back is free, byte for byte, and whatever could be
    /// served before can be served after.
    proof fn lemma_given_back(self, after: FrameAllocator, region: PhysMemoryRegion)
        requires
            self.wf(),
            region.size > 0,
            is_aligned(region.start.0 as int, self.page_size as int),
            is_aligned(region.size as int, self.page_size as int),
            self.region_allocated(region),
            after.page_size == self.page_size,
            after.base == self.base,
            after.end == self.end,
            after.next == self.next,
            after.free@ == self.free@.push(region),
        ensures
            after.wf(),
            forall|a: int| after.is_allocated(a) <==> self.is_allocated(a) && !region.contains(a),
            forall|order: nat|
                self.can_alloc(order) || region.size == self.order_bytes(order) ==> after.can_alloc(
                    order,
                ),
    {
        reveal(FrameAllocator::is_allocated);
        let n = self.free@.len() as int;
        let a0 = region.start.0 as int;
        let a1 = region.start.0 + region.size - 1;
        assert(region.contains(a0));
        assert(region.contains(a1));
        assert(self.is_allocated(a0));
        assert(self.is_allocated(a1));
        assert(after.free@[n] == region);
        assert forall|k: int| 0 <= k < n implies #[trigger] after.free@[k] == self.free@[k] by {}
        assert forall|x: int, y: int|
            0 <= x < after.free@.len() && 0 <= y < after.free@.len() && x != y implies (
        #[trigger] after.free@[x]).disjoint(#[trigger] after.free@[y]) by {
            if x < n && y < n {
                assert(self.free@[x].disjoint(self.free@[y]));
            } else {
                let o = if x < n {
                    x
                } else {
                    y
                };
                let b = self.free@[o];
                assert(b.size > 0);
                if !b.disjoint(region) {
                    let a = if b.start.0 >= region.start.0 {
                        b.start.0 as int
                    } else {
                        region.start.0 as int
                    };
                    assert(self.free_runs()[o].contains(a) && region.contains(a));
                    assert(self.is_allocated(a));
                    assert(self.in_free(a));
                }
            }
        }
        assert forall|a: int|
            after.is_allocated(a) <==> self.is_allocated(a) && !region.contains(a) by {
            if region.contains(a) {
                assert(after.free_runs()[n].contains(a));
            } else if self.in_free(a) {
                let k = choose|k: int|
                    0 <= k < self.free_runs().len() && (#[trigger] self.free_runs()[k]).contains(a);
                assert(after.free_runs()[k].contains(a));
            } else if after.in_free(a) {
                let k = choose|k: int|
                    0 <= k < after.free_runs().len() && (#[trigger] after.free_runs()[k]).contains(
                        a,
                    );
                if k < n {
                    assert(self.free_runs()[k].contains(a));
                }
            }
        }
        assert forall|order: nat|
            self.can_alloc(order) || region.size == self.order_bytes(order) implies after.can_alloc(
            order,
        ) by {
            let bytes = self.order_bytes(order);
            if region.size == bytes {
                assert(after.free_runs()[n].size == bytes);
            } else if self.first_fit(bytes).is_some() {
                let k = choose|k: int|
                    0 <= k < self.free_runs().len() && (#[trigger] self.free_runs()[k]).size
                        == bytes;
                assert(after.free_runs()[k].size == bytes);
            }
        }
    }
}

} // verus!
