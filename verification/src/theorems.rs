//! What holds of the heap in every state it can reach.

use crate::align::{is_aligned, lemma_aligned_add, lemma_aligned_apart};
use crate::heap::KHeap;
use crate::layout::Layout;
use crate::params::MAGAZINE_CAPACITY;
use crate::slab::slot_in_page;
use vstd::prelude::*;
use vstd::set_lib::{lemma_int_range, lemma_len_subset, set_int_range};

verus! {

impl KHeap {
    /// Whether `[p, p + len)` is the memory of a live allocation: a live
    /// object of some size class, or a live huge allocation.
    pub open spec fn is_live_range(self, p: usize, len: nat) -> bool {
        ||| exists|k: int| self.is_live(k, p) && len == self.config().spec_object_size(k as nat)
        ||| self.huge().contains_key(p) && len == self.huge_bytes(self.huge()[p])
    }

    /// A live object lies within one slab page, and that page belongs to
    /// the slab of the object's class and to no other.
    pub proof fn lemma_live_object_in_page(self, k: int, p: usize)
        requires
            self.wf(),
            self.is_live(k, p),
        ensures
            exists|i: int|
                0 <= i < self.slab(k).pages().len() && (#[trigger] self.slab(k).pages()[i]) <= p
                    && p + self.config().spec_object_size(k as nat) <= self.slab(k).pages()[i]
                    + self.config().spec_page_size() && forall|j: int, m: int|
                    0 <= j < self.num_classes() && j != k && 0 <= m < self.slab(j).pages().len()
                        ==> #[trigger] self.slab(j).pages()[m] != self.slab(k).pages()[i],
    {
        assert(self.slab(k).wf());
        let os = self.slab(k).spec_object_size() as int;
        let ps = self.slab(k).spec_page_size() as int;
        let i = choose|i: int|
            0 <= i < self.slab(k).pages().len() && slot_in_page(
                #[trigger] self.slab(k).pages()[i] as int,
                p as int,
                os,
                ps,
            );
        assert forall|j: int, m: int|
            0 <= j < self.num_classes() && j != k && 0 <= m < self.slab(
                j,
            ).pages().len() implies #[trigger] self.slab(j).pages()[m] != self.slab(k).pages()[i] by {
            assert(self.slab(j).pages()[m] != self.slab(k).pages()[i]);
        }
    }

    /// The page of a live object: where it starts.
    proof fn lemma_page_of(self, k: int, p: usize) -> (base: usize)
        requires
            self.wf(),
            self.is_live(k, p),
        ensures
            exists|i: int| 0 <= i < self.slab(k).pages().len() && self.slab(k).pages()[i] == base,
            base > 0,
            is_aligned(base as int, self.config().spec_page_size() as int),
            base <= p,
            p + self.config().spec_object_size(k as nat) <= base + self.config().spec_page_size(),
            self.config().spec_page_size() > 0,
    {
        assert(self.slab(k).wf());
        self.config().lemma_wf();
        let os = self.slab(k).spec_object_size() as int;
        let ps = self.slab(k).spec_page_size() as int;
        let i = choose|i: int|
            0 <= i < self.slab(k).pages().len() && slot_in_page(
                #[trigger] self.slab(k).pages()[i] as int,
                p as int,
                os,
                ps,
            );
        self.slab(k).pages()[i]
    }

    /// No two live allocations overlap: two live ranges that start at
    /// different addresses share no byte, and two that start at the same
    /// address are the same allocation.
    pub proof fn lemma_live_ranges_disjoint(self, p: usize, len_p: nat, q: usize, len_q: nat)
        requires
            self.wf(),
            self.is_live_range(p, len_p),
            self.is_live_range(q, len_q),
        ensures
            p != q ==> p + len_p <= q || q + len_q <= p,
            p == q ==> len_p == len_q,
    {
        let ps = self.config().spec_page_size() as int;
        let off = self.translator().offset as int;
        self.config().lemma_wf();
        let small_p = exists|k: int|
            self.is_live(k, p) && len_p == self.config().spec_object_size(k as nat);
        let small_q = exists|k: int|
            self.is_live(k, q) && len_q == self.config().spec_object_size(k as nat);
        if small_p && small_q {
            let kp = choose|k: int|
                self.is_live(k, p) && len_p == self.config().spec_object_size(k as nat);
            let kq = choose|k: int|
                self.is_live(k, q) && len_q == self.config().spec_object_size(k as nat);
            assert(self.slab(kp).wf());
            assert(self.slab(kq).wf());
            if kp == kq {
                if p != q {
                    self.slab(kp).lemma_slots_disjoint(p as int, q as int);
                }
            } else {
                let bp = self.lemma_page_of(kp, p);
                let bq = self.lemma_page_of(kq, q);
                let ip = choose|i: int|
                    0 <= i < self.slab(kp).pages().len() && self.slab(kp).pages()[i] == bp;
                let iq = choose|i: int|
                    0 <= i < self.slab(kq).pages().len() && self.slab(kq).pages()[i] == bq;
                assert(self.slab(kp).pages()[ip] != self.slab(kq).pages()[iq]);
                if bp < bq {
                    lemma_aligned_apart(bp as int, bq as int, ps);
                } else {
                    lemma_aligned_apart(bq as int, bp as int, ps);
                }
            }
        } else if small_p || small_q {
            // One is an object of a slab and the other a huge allocation.
            let (obj, va) = if small_p {
                (p, q)
            } else {
                (q, p)
            };
            let k = choose|k: int|
                self.is_live(k, obj) && (if small_p {
                    len_p
                } else {
                    len_q
                }) == self.config().spec_object_size(k as nat);
            let b = self.lemma_page_of(k, obj);
            let i = choose|i: int|
                0 <= i < self.slab(k).pages().len() && self.slab(k).pages()[i] == b;
            let page = self.slab(k).pages()[i];
            assert(self.huge().contains_key(va));
            assert(page < va || page >= va + self.huge_bytes(self.huge()[va]));
            let r = self.huge_region(va, self.huge()[va]);
            lemma_aligned_add(r.start.0 as int, off, ps);
            if b < va {
                lemma_aligned_apart(b as int, va as int, ps);
            }
        } else {
            assert(self.huge().contains_key(p));
            assert(self.huge().contains_key(q));
        }
    }

    /// An object handed out for a layout holds the layout: it is aligned as
    /// asked, it is at least as large as asked, and all of it lies within
    /// one slab page of the layout's class.
    pub proof fn lemma_allocation_holds_layout(
        self,
        before: KHeap,
        cpu: int,
        layout: Layout,
        k: int,
        r: usize,
    )
        requires
            self.wf(),
            layout.wf(),
            self.allocated_small(before, cpu, layout, k, r),
        ensures
            r != 0,
            is_aligned(r as int, layout.spec_align() as int),
            exists|i: int|
                0 <= i < self.slab(k).pages().len() && (#[trigger] self.slab(k).pages()[i]) <= r
                    && r + layout.spec_size() <= self.slab(k).pages()[i]
                    + self.config().spec_page_size(),
            self.is_live_range(r, self.config().spec_object_size(k as nat)),
    {
        self.lemma_live_object_in_page(k, r);
    }

    /// The live objects of a size class, as a set of addresses.
    pub open spec fn live_objects(self, k: int) -> Set<int> {
        Set::new(|a: int| 0 <= a <= usize::MAX && self.is_live(k, a as usize))
    }

    /// The number of live objects in the classes below `n`.
    pub open spec fn live_below(self, n: int) -> nat
        decreases n,
    {
        if n <= 0 {
            0
        } else {
            self.live_below(n - 1) + self.live_objects(n - 1).len()
        }
    }

    /// The number of live allocations: the live objects of all size classes
    /// and the live huge allocations.
    pub open spec fn live_total(self) -> nat {
        self.live_below(self.num_classes()) + self.huge().dom().len()
    }

    /// The live objects of a class are finitely many.
    pub proof fn lemma_live_finite(self, k: int)
        ensures
            self.live_objects(k).finite(),
    {
        lemma_int_range(0, usize::MAX + 1);
        lemma_len_subset(self.live_objects(k), set_int_range(0, usize::MAX + 1));
    }

    /// Where two states have the same live objects in the classes below
    /// `n`, but for one object of class `k` that is live in the first only,
    /// the first has one live object more if `k` is below `n`, and as many
    /// if not.
    proof fn lemma_live_below_step(self, before: KHeap, n: int, k: int, p: usize)
        requires
            0 <= n,
            self.is_live(k, p),
            !before.is_live(k, p),
            forall|j: int, q: usize|
                (j != k || q != p) ==> self.is_live(j, q) == before.is_live(j, q),
        ensures
            self.live_below(n) == before.live_below(n) + (if 0 <= k < n {
                1nat
            } else {
                0nat
            }),
        decreases n,
    {
        if n > 0 {
            self.lemma_live_below_step(before, n - 1, k, p);
            let j = n - 1;
            if j == k {
                before.lemma_live_finite(k);
                assert(self.live_objects(k) =~= before.live_objects(k).insert(p as int)) by {
                    assert forall|a: int|
                        self.live_objects(k).contains(a) <==> before.live_objects(k).insert(
                            p as int,
                        ).contains(a) by {
                        if 0 <= a <= usize::MAX && a != p {
                            assert(self.is_live(k, a as usize) == before.is_live(k, a as usize));
                        }
                    }
                }
                assert(!before.live_objects(k).contains(p as int));
            } else {
                assert(self.live_objects(j) =~= before.live_objects(j)) by {
                    assert forall|a: int|
                        self.live_objects(j).contains(a) <==> before.live_objects(j).contains(
                            a,
                        ) by {
                        if 0 <= a <= usize::MAX {
                            assert(self.is_live(j, a as usize) == before.is_live(j, a as usize));
                        }
                    }
                }
            }
        }
    }

    /// Where two states have the same live objects in the classes below
    /// `n`, they have as many.
    proof fn lemma_live_below_same(self, before: KHeap, n: int)
        requires
            0 <= n,
            forall|j: int, q: usize| self.is_live(j, q) == before.is_live(j, q),
        ensures
            self.live_below(n) == before.live_below(n),
        decreases n,
    {
        if n > 0 {
            self.lemma_live_below_same(before, n - 1);
            let j = n - 1;
            assert(self.live_objects(j) =~= before.live_objects(j)) by {
                assert forall|a: int|
                    self.live_objects(j).contains(a) <==> before.live_objects(j).contains(a) by {
                    if 0 <= a <= usize::MAX {
                        assert(self.is_live(j, a as usize) == before.is_live(j, a as usize));
                    }
                }
            }
        }
    }

    /// Every allocation that returns an address adds one to the number of
    /// live allocations; one that returns 0 adds none.
    pub proof fn lemma_allocate_counts(self, before: KHeap, cpu: int, layout: Layout, r: usize)
        requires
            before.can_allocate(cpu, layout),
            match before.config().class_of(layout) {
                Some(k) => self.allocated_small(before, cpu, layout, k as int, r),
                None => self.allocated_huge(before, layout, r),
            },
        ensures
            self.live_total() == before.live_total() + (if r != 0 {
                1nat
            } else {
                0nat
            }),
    {
        before.config().lemma_class_of(layout);
        match before.config().class_of(layout) {
            Some(k) => {
                self.lemma_live_below_step(before, self.num_classes(), k as int, r);
            },
            None => {
                self.lemma_live_below_same(before, self.num_classes());
            },
        }
    }

    /// Every `dealloc` takes one from the number of live allocations.
    pub proof fn lemma_dealloc_counts(self, before: KHeap, cpu: int, ptr: usize, layout: Layout)
        requires
            before.can_dealloc(cpu, ptr, layout),
            match before.config().class_of(layout) {
                Some(k) => self.deallocated_small(before, cpu, k as int, ptr),
                None => self.deallocated_huge(before, ptr, layout),
            },
        ensures
            self.live_total() + 1 == before.live_total(),
    {
        before.config().lemma_class_of(layout);
        match before.config().class_of(layout) {
            Some(k) => {
                before.lemma_live_below_step(self, self.num_classes(), k as int, ptr);
            },
            None => {
                self.lemma_live_below_same(before, self.num_classes());
            },
        }
    }

    /// A huge allocation that is freed again leaves the frame allocator
    /// with the same memory handed out as before, and able to serve a
    /// request of the same order.
    pub proof fn lemma_huge_round_trip(self, mid: KHeap, before: KHeap, layout: Layout, r: usize)
        requires
            before.wf(),
            before.config().class_of(layout).is_none(),
            mid.allocated_huge(before, layout, r),
            r != 0,
            self.deallocated_huge(mid, r, layout),
        ensures
            self.huge() == before.huge(),
            forall|a: int| self.frames().is_allocated(a) == before.frames().is_allocated(a),
            self.frames().can_alloc(before.spec_huge_order(layout)),
    {
        let order = before.spec_huge_order(layout);
        assert(mid.spec_huge_order(layout) == order);
        assert(mid.huge_region(r, order) == before.huge_region(r, order));
        assert(self.huge() =~= before.huge());
    }

    /// How many addresses a magazine holds after one `dealloc` of its class
    /// on its CPU: one more, or half the capacity where it was full.
    pub open spec fn count_after_dealloc(c: nat) -> nat {
        if c < MAGAZINE_CAPACITY {
            c + 1
        } else {
            (MAGAZINE_CAPACITY / 2) as nat
        }
    }

    /// How many addresses a magazine that held `c` holds after `n` calls of
    /// `dealloc` for its class on its CPU.
    pub open spec fn count_after_deallocs(c: nat, n: nat) -> nat
        decreases n,
    {
        if n == 0 {
            c
        } else {
            Self::count_after_dealloc(Self::count_after_deallocs(c, (n - 1) as nat))
        }
    }

    /// Whether `n` calls of `dealloc` on a magazine that holds `c` leave at
    /// least `n` addresses in it: either none of them finds the magazine
    /// full, or one does and the magazine held more than half its capacity
    /// and does not fill up a second time.
    pub open spec fn refills_cover(c: nat, n: nat) -> bool {
        ||| c + n <= MAGAZINE_CAPACITY
        ||| c > MAGAZINE_CAPACITY / 2 && c + n <= MAGAZINE_CAPACITY + MAGAZINE_CAPACITY / 2 + 1
    }

    /// `n` calls that `refills_cover` admits leave at least `n` addresses.
    pub proof fn lemma_refills_cover(c: nat, n: nat)
        requires
            c <= MAGAZINE_CAPACITY,
            Self::refills_cover(c, n),
        ensures
            Self::count_after_deallocs(c, n) >= n,
            Self::count_after_deallocs(c, n) <= MAGAZINE_CAPACITY,
            Self::count_after_deallocs(c, n) == (if c + n <= MAGAZINE_CAPACITY {
                c + n
            } else {
                (c + n - MAGAZINE_CAPACITY / 2 - 1) as nat
            }),
        decreases n,
    {
        if n > 0 {
            Self::lemma_refills_cover(c, (n - 1) as nat);
        }
    }

    /// After `n` calls of `dealloc` for one class on one CPU, `n` calls of
    /// `allocate` for that class on that CPU are served by the magazine
    /// alone, wherever the magazine by then holds `n` addresses: none of
    /// them takes a slab's lock or changes a slab or the frame allocator.
    pub proof fn lemma_fast_path_locality(
        states: Seq<KHeap>,
        cpu: int,
        k: int,
        n: nat,
        freed: Seq<usize>,
        layouts: Seq<Layout>,
        got: Seq<usize>,
    )
        requires
            states.len() == 2 * n + 1,
            freed.len() == n,
            layouts.len() == n,
            got.len() == n,
            states[0].wf(),
            0 <= cpu < states[0].cpus().len(),
            states[0].cpus()[cpu].initialised(),
            0 <= k < states[0].num_classes(),
            Self::refills_cover(states[0].cpus()[cpu].magazine(k).len(), n),
            forall|i: int|
                0 <= i < n ==> (#[trigger] states[i + 1]).deallocated_small(
                    states[i],
                    cpu,
                    k,
                    freed[i],
                ),
            forall|i: int|
                0 <= i < n ==> (#[trigger] states[n + i + 1]).allocated_small(
                    states[n + i],
                    cpu,
                    layouts[i],
                    k,
                    got[i],
                ),
        ensures
            forall|i: int|
                0 <= i < n ==> {
                    &&& (#[trigger] states[n + i + 1]).slab_set() == states[n + i].slab_set()
                    &&& states[n + i + 1].frames() == states[n + i].frames()
                    &&& got[i] == states[n + i].cpus()[cpu].magazine(k).last()
                },
    {
        let c0 = states[0].cpus()[cpu].magazine(k).len();
        assert(states[0].cpus()[cpu].wf(states[0].config()));
        states[0].cpus()[cpu].bundle().caches()[k].lemma_len();
        Self::lemma_count_trace(states, cpu, k, n, freed, n);
        Self::lemma_refills_cover(c0, n);
        Self::lemma_pop_trace(states, cpu, k, n, layouts, got, n);
    }

    /// Along a run of `dealloc` calls the magazine's count is what
    /// `count_after_deallocs` says.
    proof fn lemma_count_trace(
        states: Seq<KHeap>,
        cpu: int,
        k: int,
        n: nat,
        freed: Seq<usize>,
        m: nat,
    )
        requires
            m <= n,
            states.len() >= n + 1,
            freed.len() == n,
            states[0].cpus()[cpu].magazine(k).len() <= MAGAZINE_CAPACITY,
            forall|i: int|
                0 <= i < n ==> (#[trigger] states[i + 1]).deallocated_small(
                    states[i],
                    cpu,
                    k,
                    freed[i],
                ),
        ensures
            states[m as int].cpus()[cpu].magazine(k).len() == Self::count_after_deallocs(
                states[0].cpus()[cpu].magazine(k).len(),
                m,
            ),
            states[m as int].cpus()[cpu].magazine(k).len() <= MAGAZINE_CAPACITY,
        decreases m,
    {
        if m > 0 {
            Self::lemma_count_trace(states, cpu, k, n, freed, (m - 1) as nat);
            let i = m - 1;
            assert(states[i + 1].deallocated_small(states[i], cpu, k, freed[i]));
        }
    }

    /// Along a run of `allocate` calls that starts with at least as many
    /// cached addresses as there are calls, each call takes the address
    /// cached last and leaves slabs and frame allocator alone.
    proof fn lemma_pop_trace(
        states: Seq<KHeap>,
        cpu: int,
        k: int,
        n: nat,
        layouts: Seq<Layout>,
        got: Seq<usize>,
        m: nat,
    )
        requires
            m <= n,
            states.len() == 2 * n + 1,
            layouts.len() == n,
            got.len() == n,
            states[n as int].cpus()[cpu].magazine(k).len() >= n,
            forall|i: int|
                0 <= i < n ==> (#[trigger] states[n + i + 1]).allocated_small(
                    states[n + i],
                    cpu,
                    layouts[i],
                    k,
                    got[i],
                ),
        ensures
            states[(n + m) as int].cpus()[cpu].magazine(k).len() + m == states[n as int].cpus()[cpu].magazine(
                k,
            ).len(),
            forall|i: int|
                0 <= i < m ==> {
                    &&& (#[trigger] states[n + i + 1]).slab_set() == states[n + i].slab_set()
                    &&& states[n + i + 1].frames() == states[n + i].frames()
                    &&& got[i] == states[n + i].cpus()[cpu].magazine(k).last()
                },
        decreases m,
    {
        if m > 0 {
            Self::lemma_pop_trace(states, cpu, k, n, layouts, got, (m - 1) as nat);
            let i = m - 1;
            assert(states[n + i + 1].allocated_small(states[n + i], cpu, layouts[i], k, got[i]));
        }
    }
}

} // verus!
