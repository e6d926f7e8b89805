//! Why the heap's invariant holds after each step the heap takes.

use crate::align::is_aligned;
use crate::heap::KHeap;
use crate::layout::Layout;
use crate::params::MAGAZINE_CAPACITY;
use vstd::prelude::*;

verus! {

impl KHeap {
    /// Between two states that differ as `same_but` allows, the magazines
    /// other than CPU `cpu`'s for class `k` hold the same.
    pub(crate) proof fn lemma_other_magazines(self, before: KHeap, cpu: int, k: int)
        requires
            before.wf(),
            0 <= cpu < before.cpus().len(),
            before.cpus()[cpu].initialised(),
            self.same_but(before, cpu, k),
        ensures
            self.num_classes() == before.num_classes(),
            forall|c: int, j: int, i: int|
                (c != cpu || j != k) ==> self.in_magazine(c, j, i) == before.in_magazine(c, j, i),
            forall|c: int, j: int, i: int|
                (c != cpu || j != k) && before.in_magazine(c, j, i) ==> #[trigger] self.cached(
                    c,
                    j,
                    i,
                ) == before.cached(c, j, i),
            forall|c: int|
                0 <= c < self.cpus().len() && c != cpu ==> (#[trigger] self.cpus()[c]).wf(
                    self.config(),
                ),
    {
        assert(before.cpus()[cpu].wf(before.config()));
        assert forall|c: int, j: int, i: int| (c != cpu || j != k) implies self.in_magazine(c, j, i)
            == before.in_magazine(c, j, i) by {
            if 0 <= c < self.cpus().len() && 0 <= j < self.num_classes() {
                if c != cpu {
                    assert(self.cpus()[c] == before.cpus()[c]);
                } else {
                    assert(self.cpus()[cpu].bundle().caches()[j] == before.cpus()[cpu].bundle().caches()[j]);
                }
            }
        }
        assert forall|c: int, j: int, i: int|
            (c != cpu || j != k) && before.in_magazine(c, j, i) implies #[trigger] self.cached(
            c,
            j,
            i,
        ) == before.cached(c, j, i) by {
            if c != cpu {
                assert(self.cpus()[c] == before.cpus()[c]);
            } else {
                assert(self.cpus()[cpu].bundle().caches()[j] == before.cpus()[cpu].bundle().caches()[j]);
            }
        }
        assert forall|c: int| 0 <= c < self.cpus().len() && c != cpu implies (
        #[trigger] self.cpus()[c]).wf(self.config()) by {
            assert(self.cpus()[c] == before.cpus()[c]);
            assert(before.cpus()[c].wf(before.config()));
        }
    }

    /// Taking the address a magazine cached last keeps the heap's invariant
    /// and makes that object, and no other, live.
    pub(crate) proof fn lemma_after_pop(self, before: KHeap, cpu: int, k: int, p: usize)
        requires
            before.wf(),
            0 <= cpu < before.cpus().len(),
            before.cpus()[cpu].initialised(),
            0 <= k < before.num_classes(),
            self.same_but(before, cpu, k),
            self.frames() == before.frames(),
            self.slab_set() == before.slab_set(),
            self.huge() == before.huge(),
            self.cpus()[cpu].bundle().caches()[k].wf(),
            before.cpus()[cpu].magazine(k).len() > 0,
            p == before.cpus()[cpu].magazine(k).last(),
            self.cpus()[cpu].magazine(k) == before.cpus()[cpu].magazine(k).drop_last(),
        ensures
            self.wf(),
            self.is_live(k, p),
            !before.is_live(k, p),
            forall|j: int, q: usize|
                (j != k || q != p) ==> self.is_live(j, q) == before.is_live(j, q),
    {
        self.lemma_other_magazines(before, cpu, k);
        let top = before.cpus()[cpu].magazine(k).len() - 1;
        assert(before.cpus()[cpu].wf(before.config()));
        assert forall|c: int, j: int, i: int| self.in_magazine(c, j, i) implies before.in_magazine(
            c,
            j,
            i,
        ) && self.cached(c, j, i) == before.cached(c, j, i) && !(c == cpu && j == k && i
            == top) by {}
        assert forall|c: int, j: int, i: int|
            before.in_magazine(c, j, i) && !(c == cpu && j == k && i
                == top) implies self.in_magazine(c, j, i) by {}
        assert(self.magazines_hold_objects()) by {
            assert forall|c: int, j: int, i: int| self.in_magazine(c, j, i) implies self.slab(
                j,
            ).is_taken(#[trigger] self.cached(c, j, i)) by {
                assert(before.slab(j).is_taken(before.cached(c, j, i)));
            }
        }
        assert(self.magazines_distinct()) by {
            assert forall|c1: int, i1: int, c2: int, i2: int, j: int|
                self.in_magazine(c1, j, i1) && self.in_magazine(c2, j, i2) && (c1 != c2 || i1
                    != i2) implies #[trigger] self.cached(c1, j, i1) != #[trigger] self.cached(
                c2,
                j,
                i2,
            ) by {
                assert(before.cached(c1, j, i1) != before.cached(c2, j, i2));
            }
        }
        assert(self.cpus()[cpu].wf(self.config())) by {
            let b = self.cpus()[cpu].bundle();
            assert forall|j: int| 0 <= j < b.caches().len() implies (#[trigger] b.caches()[j]).wf() by {
                if j != k {
                    assert(self.cpus()[cpu].bundle().caches()[j] == before.cpus()[cpu].bundle().caches()[j]);
                }
            }
        }
        assert(before.in_magazine(cpu, k, top));
        assert(before.cached(cpu, k, top) == p);
        assert(before.is_cached(k, p));
        assert(before.slab(k).is_taken(before.cached(cpu, k, top)));
        assert(!self.is_cached(k, p)) by {
            if self.is_cached(k, p) {
                let (c, i) = choose|c: int, i: int|
                    self.in_magazine(c, k, i) && #[trigger] self.cached(c, k, i) == p;
                assert(before.cached(c, k, i) != before.cached(cpu, k, top));
            }
        }
        assert forall|j: int, q: usize| (j != k || q != p) implies self.is_live(j, q)
            == before.is_live(j, q) by {
            if before.is_cached(j, q) {
                let (c, i) = choose|c: int, i: int|
                    before.in_magazine(c, j, i) && #[trigger] before.cached(c, j, i) == q;
                assert(self.in_magazine(c, j, i));
                assert(self.cached(c, j, i) == q);
            }
            if self.is_cached(j, q) {
                let (c, i) = choose|c: int, i: int|
                    self.in_magazine(c, j, i) && #[trigger] self.cached(c, j, i) == q;
                assert(before.in_magazine(c, j, i));
                assert(before.cached(c, j, i) == q);
            }
        }
    }

    /// Handing out one object of a slab and moving others of its free
    /// objects into a magazine keeps the heap's invariant and makes the
    /// object handed out, and no other, live.
    pub(crate) proof fn lemma_after_refill(
        self,
        before: KHeap,
        cpu: int,
        k: int,
        p: usize,
        moved: Seq<usize>,
        grew: bool,
    )
        requires
            before.wf(),
            0 <= cpu < before.cpus().len(),
            before.cpus()[cpu].initialised(),
            0 <= k < before.num_classes(),
            self.same_but(before, cpu, k),
            self.huge() == before.huge(),
            self.frames().wf(),
            self.frames().spec_page_size() == before.frames().spec_page_size(),
            self.frames().spec_end() == before.frames().spec_end(),
            forall|a: int| before.frames().is_allocated(a) ==> self.frames().is_allocated(a),
            self.slab(k).wf(),
            self.slab(k).spec_object_size() == before.slab(k).spec_object_size(),
            self.slab(k).spec_page_size() == before.slab(k).spec_page_size(),
            self.slab(k).backed_by(self.frames(), self.translator()),
            self.cpus()[cpu].bundle().caches()[k].wf(),
            !grew ==> self.slab(k).pages() == before.slab(k).pages(),
            grew ==> self.slab(k).pages() == before.slab(k).pages().push(p)
                && !before.frames().is_allocated(before.translator().spec_to_pa(p as int)),
            self.cpus()[cpu].magazine(k) == before.cpus()[cpu].magazine(k) + moved,
            moved.no_duplicates(),
            !before.slab(k).is_taken(p),
            forall|i: int|
                0 <= i < moved.len() ==> !before.slab(k).is_taken(#[trigger] moved[i]) && moved[i]
                    != p,
            forall|q: usize|
                #[trigger] self.slab(k).is_taken(q) <==> before.slab(k).is_taken(q) || q == p
                    || moved.contains(q),
        ensures
            self.wf(),
            self.is_live(k, p),
            !before.is_live(k, p),
            forall|j: int, q: usize|
                (j != k || q != p) ==> self.is_live(j, q) == before.is_live(j, q),
    {
        self.lemma_other_magazines(before, cpu, k);
        let n0 = before.cpus()[cpu].magazine(k).len() as int;
        assert(before.cpus()[cpu].wf(before.config()));
        assert(before.slab_set().wf());
        assert(self.slab_set().wf()) by {
            assert forall|j: int| 0 <= j < self.slab_set().slabs().len() implies {
                &&& (#[trigger] self.slab_set().slabs()[j]).wf()
                &&& self.slab_set().slabs()[j].spec_object_size()
                    == self.slab_set().spec_config().spec_object_size(j as nat)
                &&& self.slab_set().slabs()[j].spec_page_size()
                    == self.slab_set().spec_config().spec_page_size()
            } by {
                if j != k {
                    assert(self.slab(j) == before.slab(j));
                }
                assert(before.slab_set().slabs()[j].wf());
            }
        }
        // Places in magazines: the old ones keep what they held, and the new
        // ones of CPU `cpu` hold what was moved.
        assert forall|c: int, j: int, i: int| before.in_magazine(c, j, i) implies self.in_magazine(
            c,
            j,
            i,
        ) && self.cached(c, j, i) == before.cached(c, j, i) by {}
        assert forall|c: int, j: int, i: int|
            self.in_magazine(c, j, i) && !before.in_magazine(c, j, i) implies c == cpu && j == k
            && n0 <= i && #[trigger] self.cached(c, j, i) == moved[i - n0] by {}
        assert(self.magazines_hold_objects()) by {
            assert forall|c: int, j: int, i: int| self.in_magazine(c, j, i) implies self.slab(
                j,
            ).is_taken(#[trigger] self.cached(c, j, i)) by {
                let q = self.cached(c, j, i);
                if before.in_magazine(c, j, i) {
                    assert(before.slab(j).is_taken(before.cached(c, j, i)));
                    if j != k {
                        assert(self.slab(j) == before.slab(j));
                    } else {
                        assert(self.slab(k).is_taken(q) <==> before.slab(k).is_taken(q) || q == p
                            || moved.contains(q));
                    }
                } else {
                    assert(q == moved[i - n0]);
                    assert(moved.contains(q));
                    assert(self.slab(k).is_taken(q) <==> before.slab(k).is_taken(q) || q == p
                        || moved.contains(q));
                }
            }
        }
        assert(self.magazines_distinct()) by {
            assert forall|c1: int, i1: int, c2: int, i2: int, j: int|
                self.in_magazine(c1, j, i1) && self.in_magazine(c2, j, i2) && (c1 != c2 || i1
                    != i2) implies #[trigger] self.cached(c1, j, i1) != #[trigger] self.cached(
                c2,
                j,
                i2,
            ) by {
                let b1 = before.in_magazine(c1, j, i1);
                let b2 = before.in_magazine(c2, j, i2);
                if b1 && b2 {
                    assert(before.cached(c1, j, i1) != before.cached(c2, j, i2));
                } else if b1 {
                    assert(before.slab(j).is_taken(before.cached(c1, j, i1)));
                    assert(!before.slab(k).is_taken(moved[i2 - n0]));
                } else if b2 {
                    assert(before.slab(j).is_taken(before.cached(c2, j, i2)));
                    assert(!before.slab(k).is_taken(moved[i1 - n0]));
                } else {
                    assert(moved[i1 - n0] != moved[i2 - n0]);
                }
            }
        }
        assert(self.cpus()[cpu].wf(self.config())) by {
            let b = self.cpus()[cpu].bundle();
            assert forall|j: int| 0 <= j < b.caches().len() implies (#[trigger] b.caches()[j]).wf() by {
                if j != k {
                    assert(self.cpus()[cpu].bundle().caches()[j] == before.cpus()[cpu].bundle().caches()[j]);
                }
            }
        }
        assert forall|j: int| 0 <= j < self.num_classes() implies (#[trigger] self.slab(
            j,
        )).backed_by(self.frames(), self.translator()) by {
            if j != k {
                assert(self.slab(j) == before.slab(j));
                assert(before.slab(j).backed_by(before.frames(), before.translator()));
            }
        }
        assert(self.pages_distinct()) by {
            assert forall|k1: int, i1: int, k2: int, i2: int|
                0 <= k1 < self.num_classes() && 0 <= k2 < self.num_classes() && k1 != k2 && 0
                    <= i1 < self.slab(k1).pages().len() && 0 <= i2 < self.slab(
                    k2,
                ).pages().len() implies #[trigger] self.slab(k1).pages()[i1]
                != #[trigger] self.slab(k2).pages()[i2] by {
                let fresh1 = grew && k1 == k && i1 == before.slab(k).pages().len();
                let fresh2 = grew && k2 == k && i2 == before.slab(k).pages().len();
                if k1 != k {
                    assert(self.slab(k1) == before.slab(k1));
                }
                if k2 != k {
                    assert(self.slab(k2) == before.slab(k2));
                }
                if fresh1 {
                    assert(before.slab(k2).backed_by(before.frames(), before.translator()));
                    assert(before.frames().is_allocated(
                        before.translator().spec_to_pa(before.slab(k2).pages()[i2] as int),
                    ));
                } else if fresh2 {
                    assert(before.slab(k1).backed_by(before.frames(), before.translator()));
                    assert(before.frames().is_allocated(
                        before.translator().spec_to_pa(before.slab(k1).pages()[i1] as int),
                    ));
                } else {
                    assert(before.slab(k1).pages()[i1] != before.slab(k2).pages()[i2]);
                }
            }
        }
        assert(self.huge_wf()) by {
            assert forall|va: usize| #[trigger] self.huge().contains_key(va) implies {
                let r = self.huge_region(va, self.huge()[va]);
                &&& va >= self.translator().offset
                &&& va + self.huge_bytes(self.huge()[va]) <= usize::MAX
                &&& r.size > 0
                &&& is_aligned(r.start.0 as int, self.config().spec_page_size() as int)
                &&& is_aligned(r.size as int, self.config().spec_page_size() as int)
                &&& self.frames().region_allocated(r)
            } by {
                assert(before.huge().contains_key(va));
                let r = before.huge_region(va, before.huge()[va]);
                assert(before.frames().region_allocated(r));
            }
            assert forall|va: usize, j: int, i: int|
                #[trigger] self.huge().contains_key(va) && 0 <= j < self.num_classes() && 0 <= i
                    < self.slab(j).pages().len() implies {
                let page = #[trigger] self.slab(j).pages()[i];
                page < va || page >= va + self.huge_bytes(self.huge()[va])
            } by {
                assert(before.huge().contains_key(va));
                if j != k {
                    assert(self.slab(j) == before.slab(j));
                }
                if grew && j == k && i == before.slab(k).pages().len() {
                    let r = before.huge_region(va, before.huge()[va]);
                    assert(before.frames().region_allocated(r));
                    if va <= p < va + before.huge_bytes(before.huge()[va]) {
                        assert(r.contains(before.translator().spec_to_pa(p as int)));
                    }
                } else {
                    assert(before.slab(j).pages()[i] == self.slab(j).pages()[i]);
                }
            }
        }
        // Liveness.
        assert(self.slab(k).is_taken(p) <==> before.slab(k).is_taken(p) || p == p || moved.contains(
            p,
        ));
        assert(!self.is_cached(k, p)) by {
            if self.is_cached(k, p) {
                let (c, i) = choose|c: int, i: int|
                    self.in_magazine(c, k, i) && #[trigger] self.cached(c, k, i) == p;
                if before.in_magazine(c, k, i) {
                    assert(before.slab(k).is_taken(before.cached(c, k, i)));
                } else {
                    assert(moved[i - n0] != p);
                }
            }
        }
        assert forall|j: int, q: usize| (j != k || q != p) implies self.is_live(j, q)
            == before.is_live(j, q) by {
            if 0 <= j < self.num_classes() {
                if j != k {
                    assert(self.slab(j) == before.slab(j));
                }
                if before.is_cached(j, q) {
                    let (c, i) = choose|c: int, i: int|
                        before.in_magazine(c, j, i) && #[trigger] before.cached(c, j, i) == q;
                    assert(self.in_magazine(c, j, i));
                    assert(self.cached(c, j, i) == q);
                    assert(before.slab(j).is_taken(before.cached(c, j, i)));
                }
                if self.is_cached(j, q) {
                    let (c, i) = choose|c: int, i: int|
                        self.in_magazine(c, j, i) && #[trigger] self.cached(c, j, i) == q;
                    if before.in_magazine(c, j, i) {
                        assert(before.cached(c, j, i) == q);
                    } else {
                        assert(moved[i - n0] == q);
                        assert(!before.slab(k).is_taken(moved[i - n0]));
                    }
                }
                if j == k && moved.contains(q) {
                    let i = choose|i: int| 0 <= i < moved.len() && moved[i] == q;
                    assert(!before.slab(k).is_taken(moved[i]));
                    assert(self.in_magazine(cpu, k, n0 + i));
                    assert(self.cached(cpu, k, n0 + i) == q);
                }
            }
        }
    }

    /// States that hold the same objects in the same places are well formed
    /// together and have the same live objects.
    pub(crate) proof fn lemma_same_objects(self, before: KHeap)
        requires
            self.same_objects(before),
            before.wf(),
        ensures
            self.wf(),
            forall|j: int, q: usize| self.is_live(j, q) == before.is_live(j, q),
    {
        assert forall|c: int, j: int, i: int| self.in_magazine(c, j, i) == before.in_magazine(
            c,
            j,
            i,
        ) by {
            if 0 <= c < self.cpus().len() && 0 <= j < self.num_classes() {
                assert(self.cpus()[c].magazine(j) == before.cpus()[c].magazine(j));
            }
        }
        assert forall|c: int, j: int, i: int|
            before.in_magazine(c, j, i) implies #[trigger] self.cached(c, j, i) == before.cached(
            c,
            j,
            i,
        ) by {
            assert(self.cpus()[c].magazine(j) == before.cpus()[c].magazine(j));
        }
        assert(self.magazines_hold_objects()) by {
            assert forall|c: int, j: int, i: int| self.in_magazine(c, j, i) implies self.slab(
                j,
            ).is_taken(#[trigger] self.cached(c, j, i)) by {
                assert(before.slab(j).is_taken(before.cached(c, j, i)));
            }
        }
        assert(self.magazines_distinct()) by {
            assert forall|c1: int, i1: int, c2: int, i2: int, j: int|
                self.in_magazine(c1, j, i1) && self.in_magazine(c2, j, i2) && (c1 != c2 || i1
                    != i2) implies #[trigger] self.cached(c1, j, i1) != #[trigger] self.cached(
                c2,
                j,
                i2,
            ) by {
                assert(before.cached(c1, j, i1) != before.cached(c2, j, i2));
            }
        }
        assert forall|c: int| 0 <= c < self.cpus().len() implies (#[trigger] self.cpus()[c]).wf(
            self.config(),
        ) by {
            assert(before.cpus()[c].wf(before.config()));
        }
        assert forall|j: int| 0 <= j < self.num_classes() implies #[trigger] self.slab(j)
            == before.slab(j) by {}
        assert forall|j: int| 0 <= j < self.num_classes() implies (#[trigger] self.slab(
            j,
        )).backed_by(self.frames(), self.translator()) by {
            assert(before.slab(j).backed_by(before.frames(), before.translator()));
        }
        assert(self.pages_distinct()) by {
            assert forall|k1: int, i1: int, k2: int, i2: int|
                0 <= k1 < self.num_classes() && 0 <= k2 < self.num_classes() && k1 != k2 && 0
                    <= i1 < self.slab(k1).pages().len() && 0 <= i2 < self.slab(
                    k2,
                ).pages().len() implies #[trigger] self.slab(k1).pages()[i1]
                != #[trigger] self.slab(k2).pages()[i2] by {
                assert(before.slab(k1).pages()[i1] != before.slab(k2).pages()[i2]);
            }
        }
        assert(self.huge_wf()) by {
            assert forall|va: usize, j: int, i: int|
                #[trigger] self.huge().contains_key(va) && 0 <= j < self.num_classes() && 0 <= i
                    < self.slab(j).pages().len() implies {
                let page = #[trigger] self.slab(j).pages()[i];
                page < va || page >= va + self.huge_bytes(self.huge()[va])
            } by {
                let page = before.slab(j).pages()[i];
                assert(page < va || page >= va + before.huge_bytes(before.huge()[va]));
            }
        }
        assert forall|j: int, q: usize| self.is_live(j, q) == before.is_live(j, q) by {
            if before.is_cached(j, q) {
                let (c, i) = choose|c: int, i: int|
                    before.in_magazine(c, j, i) && #[trigger] before.cached(c, j, i) == q;
                assert(self.in_magazine(c, j, i));
                assert(self.cached(c, j, i) == q);
            }
            if self.is_cached(j, q) {
                let (c, i) = choose|c: int, i: int|
                    self.in_magazine(c, j, i) && #[trigger] self.cached(c, j, i) == q;
                assert(before.in_magazine(c, j, i));
                assert(before.cached(c, j, i) == q);
            }
        }
    }

    /// In states with the same slabs and magazines, the same objects are in
    /// the same places.
    pub(crate) proof fn lemma_same_small(self, before: KHeap)
        requires
            self.same_small(before),
            before.wf(),
        ensures
            forall|j: int| 0 <= j < self.num_classes() ==> #[trigger] self.slab(j) == before.slab(j),
            self.pages_distinct(),
            self.magazines_hold_objects(),
            self.magazines_distinct(),
            forall|c: int|
                0 <= c < self.cpus().len() ==> (#[trigger] self.cpus()[c]).wf(self.config()),
            forall|j: int, q: usize| self.is_live(j, q) == before.is_live(j, q),
    {
        assert forall|c: int, j: int, i: int| self.in_magazine(c, j, i) == before.in_magazine(
            c,
            j,
            i,
        ) by {}
        assert(self.magazines_hold_objects()) by {
            assert forall|c: int, j: int, i: int| self.in_magazine(c, j, i) implies self.slab(
                j,
            ).is_taken(#[trigger] self.cached(c, j, i)) by {
                assert(before.slab(j).is_taken(before.cached(c, j, i)));
            }
        }
        assert(self.magazines_distinct()) by {
            assert forall|c1: int, i1: int, c2: int, i2: int, j: int|
                self.in_magazine(c1, j, i1) && self.in_magazine(c2, j, i2) && (c1 != c2 || i1
                    != i2) implies #[trigger] self.cached(c1, j, i1) != #[trigger] self.cached(
                c2,
                j,
                i2,
            ) by {
                assert(before.cached(c1, j, i1) != before.cached(c2, j, i2));
            }
        }
        assert forall|c: int| 0 <= c < self.cpus().len() implies (#[trigger] self.cpus()[c]).wf(
            self.config(),
        ) by {
            assert(before.cpus()[c].wf(before.config()));
        }
        assert forall|j: int| 0 <= j < self.num_classes() implies #[trigger] self.slab(j)
            == before.slab(j) by {}
        assert(self.pages_distinct()) by {
            assert forall|k1: int, i1: int, k2: int, i2: int|
                0 <= k1 < self.num_classes() && 0 <= k2 < self.num_classes() && k1 != k2 && 0
                    <= i1 < self.slab(k1).pages().len() && 0 <= i2 < self.slab(
                    k2,
                ).pages().len() implies #[trigger] self.slab(k1).pages()[i1]
                != #[trigger] self.slab(k2).pages()[i2] by {
                assert(before.slab(k1).pages()[i1] != before.slab(k2).pages()[i2]);
            }
        }
        assert forall|j: int, q: usize| self.is_live(j, q) == before.is_live(j, q) by {
            if before.is_cached(j, q) {
                let (c, i) = choose|c: int, i: int|
                    before.in_magazine(c, j, i) && #[trigger] before.cached(c, j, i) == q;
                assert(self.in_magazine(c, j, i));
                assert(self.cached(c, j, i) == q);
            }
            if self.is_cached(j, q) {
                let (c, i) = choose|c: int, i: int|
                    self.in_magazine(c, j, i) && #[trigger] self.cached(c, j, i) == q;
                assert(before.in_magazine(c, j, i));
                assert(before.cached(c, j, i) == q);
            }
        }
    }

    /// A run of pages that the frame allocator has just handed out, taken as
    /// a huge allocation, keeps the heap's invariant: it shares no byte with
    /// a slab page or with another huge allocation.
    pub(crate) proof fn lemma_after_huge_alloc(self, before: KHeap, va: usize, order: nat)
        requires
            before.wf(),
            self.same_small(before),
            self.frames().wf(),
            self.frames().spec_page_size() == before.frames().spec_page_size(),
            self.frames().spec_end() == before.frames().spec_end(),
            self.huge() == before.huge().insert(va, order),
            va >= before.translator().offset,
            before.huge_bytes(order) > 0,
            va + before.huge_bytes(order) <= usize::MAX,
            is_aligned(
                before.translator().spec_to_pa(va as int),
                before.config().spec_page_size() as int,
            ),
            is_aligned(before.huge_bytes(order) as int, before.config().spec_page_size() as int),
            before.frames().region_unallocated(before.huge_region(va, order)),
            forall|a: int|
                self.frames().is_allocated(a) <==> before.frames().is_allocated(a)
                    || before.huge_region(va, order).contains(a),
        ensures
            self.wf(),
            !before.huge().contains_key(va),
            forall|j: int, q: usize| self.is_live(j, q) == before.is_live(j, q),
    {
        self.lemma_same_small(before);
        let region = before.huge_region(va, order);
        let off = before.translator().offset as int;
        assert(region.contains(va - off));
        // An allocation that was live before shares no byte with the new one.
        assert forall|w: usize| #[trigger] before.huge().contains_key(w) implies w
            + before.huge_bytes(before.huge()[w]) <= va || va + before.huge_bytes(order) <= w by {
            let r = before.huge_region(w, before.huge()[w]);
            assert(before.frames().region_allocated(r));
            let a = if w >= va {
                w as int
            } else {
                va as int
            };
            if !(w + before.huge_bytes(before.huge()[w]) <= va || va + before.huge_bytes(order)
                <= w) {
                assert(r.contains(a - off));
                assert(region.contains(a - off));
            }
        }
        assert(!before.huge().contains_key(va));
        assert forall|j: int| 0 <= j < self.num_classes() implies (#[trigger] self.slab(
            j,
        )).backed_by(self.frames(), self.translator()) by {
            assert(before.slab(j).backed_by(before.frames(), before.translator()));
        }
        assert(self.huge_wf()) by {
            assert forall|w: usize| #[trigger] self.huge().contains_key(w) implies {
                let r = self.huge_region(w, self.huge()[w]);
                &&& w >= self.translator().offset
                &&& w + self.huge_bytes(self.huge()[w]) <= usize::MAX
                &&& r.size > 0
                &&& is_aligned(r.start.0 as int, self.config().spec_page_size() as int)
                &&& is_aligned(r.size as int, self.config().spec_page_size() as int)
                &&& self.frames().region_allocated(r)
            } by {
                if w != va {
                    assert(before.huge().contains_key(w));
                    let r = before.huge_region(w, before.huge()[w]);
                    assert(before.frames().region_allocated(r));
                }
            }
            assert forall|w1: usize, w2: usize|
                #[trigger] self.huge().contains_key(w1) && #[trigger] self.huge().contains_key(w2)
                    && w1 != w2 implies w1 + self.huge_bytes(self.huge()[w1]) <= w2 || w2
                + self.huge_bytes(self.huge()[w2]) <= w1 by {
                if w1 != va {
                    assert(before.huge().contains_key(w1));
                }
                if w2 != va {
                    assert(before.huge().contains_key(w2));
                }
            }
            assert forall|w: usize, j: int, i: int|
                #[trigger] self.huge().contains_key(w) && 0 <= j < self.num_classes() && 0 <= i
                    < self.slab(j).pages().len() implies {
                let page = #[trigger] self.slab(j).pages()[i];
                page < w || page >= w + self.huge_bytes(self.huge()[w])
            } by {
                let page = before.slab(j).pages()[i];
                if w != va {
                    assert(before.huge().contains_key(w));
                    assert(page < w || page >= w + before.huge_bytes(before.huge()[w]));
                } else {
                    assert(before.slab(j).backed_by(before.frames(), before.translator()));
                    assert(before.frames().is_allocated(
                        before.translator().spec_to_pa(page as int),
                    ));
                    if va <= page < va + before.huge_bytes(order) {
                        assert(region.contains(page - off));
                    }
                }
            }
        }
    }

    /// A state that differs from another as `same_but` allows, and not in
    /// what the magazine holds nor in slabs, frames or huge allocations,
    /// holds the same objects.
    pub(crate) proof fn lemma_unchanged(self, before: KHeap, cpu: int, k: int)
        requires
            before.wf(),
            0 <= cpu < before.cpus().len(),
            before.cpus()[cpu].initialised(),
            0 <= k < before.num_classes(),
            self.same_but(before, cpu, k),
            self.frames() == before.frames(),
            self.slab_set() == before.slab_set(),
            self.huge() == before.huge(),
            self.cpus()[cpu].bundle().caches()[k].wf(),
            self.cpus()[cpu].magazine(k) == before.cpus()[cpu].magazine(k),
        ensures
            self.same_objects(before),
    {
        assert(before.cpus()[cpu].wf(before.config()));
        assert forall|c: int| 0 <= c < self.cpus().len() implies {
            &&& (#[trigger] self.cpus()[c]).initialised() == before.cpus()[c].initialised()
            &&& before.cpus()[c].wf(before.config()) ==> self.cpus()[c].wf(self.config())
        } by {
            if c != cpu {
                assert(self.cpus()[c] == before.cpus()[c]);
            } else {
                let b = self.cpus()[cpu].bundle();
                assert forall|j: int| 0 <= j < b.caches().len() implies (#[trigger] b.caches()[j]).wf() by {
                    if j != k {
                        assert(self.cpus()[cpu].bundle().caches()[j] == before.cpus()[cpu].bundle().caches()[j]);
                    }
                }
            }
        }
        assert forall|c: int, j: int|
            0 <= c < self.cpus().len() && 0 <= j < self.num_classes() implies #[trigger] self.cpus()[c].magazine(
            j,
        ) == before.cpus()[c].magazine(j) by {
            if c != cpu {
                assert(self.cpus()[c] == before.cpus()[c]);
            } else if j != k {
                assert(self.cpus()[cpu].bundle().caches()[j] == before.cpus()[cpu].bundle().caches()[j]);
            }
        }
    }

    /// `same_but` goes through a state that holds the same objects.
    pub(crate) proof fn lemma_chain(self, mid: KHeap, before: KHeap, cpu: int, k: int)
        requires
            0 <= cpu < before.cpus().len(),
            self.same_but(mid, cpu, k),
            mid.same_but(before, cpu, k),
        ensures
            self.same_but(before, cpu, k),
    {
        assert forall|c: int| 0 <= c < self.cpus().len() && c != cpu implies #[trigger] self.cpus()[c]
            == before.cpus()[c] by {
            assert(mid.cpus()[c] == before.cpus()[c]);
        }
        assert forall|j: int| 0 <= j < self.num_classes() && j != k implies #[trigger] self.cpus()[cpu].bundle().caches()[j]
            == before.cpus()[cpu].bundle().caches()[j] by {
            assert(mid.cpus()[cpu].bundle().caches()[j] == before.cpus()[cpu].bundle().caches()[j]);
        }
        assert forall|j: int| 0 <= j < self.num_classes() && j != k implies #[trigger] self.slab(j)
            == before.slab(j) by {
            assert(mid.slab(j) == before.slab(j));
        }
    }

    /// `same_but` holds from the state before a critical section to the one
    /// after it, where it holds inside.
    pub(crate) proof fn lemma_chain_flags(
        self,
        served: KHeap,
        entered: KHeap,
        before: KHeap,
        cpu: int,
        k: int,
    )
        requires
            0 <= cpu < before.cpus().len(),
            before.cpus()[cpu].initialised(),
            served.same_but(entered, cpu, k),
            entered.same_objects(before),
            self.same_objects(served),
            forall|c: int|
                0 <= c < before.cpus().len() && c != cpu ==> #[trigger] entered.cpus()[c]
                    == before.cpus()[c] && self.cpus()[c] == served.cpus()[c],
            self.cpus()[cpu].irq_masked() == before.cpus()[cpu].irq_masked(),
            self.cpus()[cpu].bundle() == served.cpus()[cpu].bundle(),
            entered.cpus()[cpu].bundle() == before.cpus()[cpu].bundle(),
        ensures
            self.same_but(before, cpu, k),
            self.same_cpu_flags(before),
    {
        assert forall|c: int| 0 <= c < self.cpus().len() && c != cpu implies #[trigger] self.cpus()[c]
            == before.cpus()[c] by {
            assert(entered.cpus()[c] == before.cpus()[c]);
            assert(served.cpus()[c] == entered.cpus()[c]);
        }
        assert forall|j: int| 0 <= j < self.num_classes() && j != k implies #[trigger] self.cpus()[cpu].bundle().caches()[j]
            == before.cpus()[cpu].bundle().caches()[j] by {
            assert(served.cpus()[cpu].bundle().caches()[j] == entered.cpus()[cpu].bundle().caches()[j]);
        }
        assert forall|j: int| 0 <= j < self.num_classes() && j != k implies #[trigger] self.slab(j)
            == before.slab(j) by {
            assert(served.slab(j) == entered.slab(j));
        }
        assert forall|c: int| 0 <= c < self.cpus().len() implies (#[trigger] self.cpus()[c]).initialised()
            == before.cpus()[c].initialised() && self.cpus()[c].irq_masked()
            == before.cpus()[c].irq_masked() by {
            if c != cpu {
                assert(self.cpus()[c] == before.cpus()[c]);
            } else {
                assert(entered.cpus()[c].initialised() == before.cpus()[c].initialised());
            }
        }
    }

    /// A live object of a layout's class is not null, holds the layout's
    /// size and is aligned as the layout asks; and no magazine is over its
    /// capacity.
    pub(crate) proof fn lemma_small_facts(self, cpu: int, layout: Layout, k: int, r: usize)
        requires
            self.wf(),
            0 <= cpu < self.cpus().len(),
            self.cpus()[cpu].initialised(),
            self.config().class_of(layout) == Some(k as nat),
            self.is_live(k, r),
        ensures
            r != 0,
            layout.spec_size() <= self.config().spec_object_size(k as nat),
            layout.wf() ==> is_aligned(r as int, layout.spec_align() as int),
            self.cpus()[cpu].magazine(k).len() <= MAGAZINE_CAPACITY,
    {
        self.config().lemma_class_of(layout);
        assert(self.slab(k).wf());
        self.slab(k).lemma_slot(r as int);
        if layout.wf() {
            self.config().lemma_class_alignment(layout, k as nat, r as int);
        }
        assert(self.cpus()[cpu].wf(self.config()));
        self.cpus()[cpu].bundle().caches()[k].lemma_len();
    }

    /// Caching a live object keeps the heap's invariant and makes that
    /// object, and no other, cease to be live.
    pub(crate) proof fn lemma_after_push(self, before: KHeap, cpu: int, k: int, p: usize)
        requires
            before.wf(),
            0 <= cpu < before.cpus().len(),
            before.cpus()[cpu].initialised(),
            0 <= k < before.num_classes(),
            before.is_live(k, p),
            self.same_but(before, cpu, k),
            self.frames() == before.frames(),
            self.slab_set() == before.slab_set(),
            self.huge() == before.huge(),
            self.cpus()[cpu].bundle().caches()[k].wf(),
            self.cpus()[cpu].magazine(k) == before.cpus()[cpu].magazine(k).push(p),
        ensures
            self.wf(),
            !self.is_live(k, p),
            forall|j: int, q: usize|
                (j != k || q != p) ==> self.is_live(j, q) == before.is_live(j, q),
    {
        self.lemma_other_magazines(before, cpu, k);
        let top = before.cpus()[cpu].magazine(k).len() as int;
        assert(before.cpus()[cpu].wf(before.config()));
        assert forall|c: int, j: int, i: int| before.in_magazine(c, j, i) implies self.in_magazine(
            c,
            j,
            i,
        ) && self.cached(c, j, i) == before.cached(c, j, i) by {}
        assert forall|c: int, j: int, i: int|
            self.in_magazine(c, j, i) && !before.in_magazine(c, j, i) implies c == cpu && j == k
            && i == top && #[trigger] self.cached(c, j, i) == p by {}
        assert(self.in_magazine(cpu, k, top));
        assert(self.cached(cpu, k, top) == p);
        assert(self.magazines_hold_objects()) by {
            assert forall|c: int, j: int, i: int| self.in_magazine(c, j, i) implies self.slab(
                j,
            ).is_taken(#[trigger] self.cached(c, j, i)) by {
                if before.in_magazine(c, j, i) {
                    assert(before.slab(j).is_taken(before.cached(c, j, i)));
                }
            }
        }
        assert(self.magazines_distinct()) by {
            assert forall|c1: int, i1: int, c2: int, i2: int, j: int|
                self.in_magazine(c1, j, i1) && self.in_magazine(c2, j, i2) && (c1 != c2 || i1
                    != i2) implies #[trigger] self.cached(c1, j, i1) != #[trigger] self.cached(
                c2,
                j,
                i2,
            ) by {
                let b1 = before.in_magazine(c1, j, i1);
                let b2 = before.in_magazine(c2, j, i2);
                if b1 && b2 {
                    assert(before.cached(c1, j, i1) != before.cached(c2, j, i2));
                } else if b1 {
                    assert(before.cached(c1, j, i1) != p);
                } else if b2 {
                    assert(before.cached(c2, j, i2) != p);
                }
            }
        }
        assert(self.cpus()[cpu].wf(self.config())) by {
            let b = self.cpus()[cpu].bundle();
            assert forall|j: int| 0 <= j < b.caches().len() implies (#[trigger] b.caches()[j]).wf() by {
                if j != k {
                    assert(self.cpus()[cpu].bundle().caches()[j] == before.cpus()[cpu].bundle().caches()[j]);
                }
            }
        }
        assert forall|j: int, q: usize| (j != k || q != p) implies self.is_live(j, q)
            == before.is_live(j, q) by {
            if before.is_cached(j, q) {
                let (c, i) = choose|c: int, i: int|
                    before.in_magazine(c, j, i) && #[trigger] before.cached(c, j, i) == q;
                assert(self.in_magazine(c, j, i));
                assert(self.cached(c, j, i) == q);
            }
            if self.is_cached(j, q) {
                let (c, i) = choose|c: int, i: int|
                    self.in_magazine(c, j, i) && #[trigger] self.cached(c, j, i) == q;
                if !before.in_magazine(c, j, i) {
                    assert(self.cached(c, j, i) == p);
                } else {
                    assert(before.cached(c, j, i) == q);
                }
            }
        }
    }

    /// Freeing an object into its slab and draining part of a magazine after
    /// it keeps the heap's invariant and makes the object freed, and no
    /// other, cease to be live.
    pub(crate) proof fn lemma_after_drain(self, before: KHeap, cpu: int, k: int, p: usize, moved: Seq<usize>)
        requires
            before.wf(),
            0 <= cpu < before.cpus().len(),
            before.cpus()[cpu].initialised(),
            0 <= k < before.num_classes(),
            before.is_live(k, p),
            self.same_but(before, cpu, k),
            self.huge() == before.huge(),
            self.frames() == before.frames(),
            self.slab(k).wf(),
            self.slab(k).spec_object_size() == before.slab(k).spec_object_size(),
            self.slab(k).spec_page_size() == before.slab(k).spec_page_size(),
            self.slab(k).pages() == before.slab(k).pages(),
            self.cpus()[cpu].bundle().caches()[k].wf(),
            moved.len() <= before.cpus()[cpu].magazine(k).len(),
            moved == before.cpus()[cpu].magazine(k).skip(
                before.cpus()[cpu].magazine(k).len() - moved.len(),
            ),
            self.cpus()[cpu].magazine(k) == before.cpus()[cpu].magazine(k).take(
                before.cpus()[cpu].magazine(k).len() - moved.len(),
            ),
            forall|q: usize| #[trigger]
                self.slab(k).is_taken(q) <==> before.slab(k).is_taken(q) && q != p
                    && !moved.contains(q),
        ensures
            self.wf(),
            !self.is_live(k, p),
            forall|j: int, q: usize|
                (j != k || q != p) ==> self.is_live(j, q) == before.is_live(j, q),
    {
        self.lemma_other_magazines(before, cpu, k);
        let cached = before.cpus()[cpu].magazine(k);
        let keep = cached.len() - moved.len();
        assert(before.cpus()[cpu].wf(before.config()));
        assert(before.slab_set().wf());
        assert(self.slab_set().wf()) by {
            assert forall|j: int| 0 <= j < self.slab_set().slabs().len() implies {
                &&& (#[trigger] self.slab_set().slabs()[j]).wf()
                &&& self.slab_set().slabs()[j].spec_object_size()
                    == self.slab_set().spec_config().spec_object_size(j as nat)
                &&& self.slab_set().slabs()[j].spec_page_size()
                    == self.slab_set().spec_config().spec_page_size()
            } by {
                if j != k {
                    assert(self.slab(j) == before.slab(j));
                }
                assert(before.slab_set().slabs()[j].wf());
            }
        }
        assert forall|c: int, j: int, i: int| self.in_magazine(c, j, i) implies before.in_magazine(
            c,
            j,
            i,
        ) && self.cached(c, j, i) == before.cached(c, j, i) && !(c == cpu && j == k && i
            >= keep) by {}
        assert forall|c: int, j: int, i: int|
            before.in_magazine(c, j, i) && !(c == cpu && j == k && i
                >= keep) implies self.in_magazine(c, j, i) by {}
        assert forall|i: int| keep <= i < cached.len() implies moved.contains(
            #[trigger] before.cached(cpu, k, i),
        ) by {
            assert(moved[i - keep] == cached[i]);
        }
        assert(self.magazines_distinct()) by {
            assert forall|c1: int, i1: int, c2: int, i2: int, j: int|
                self.in_magazine(c1, j, i1) && self.in_magazine(c2, j, i2) && (c1 != c2 || i1
                    != i2) implies #[trigger] self.cached(c1, j, i1) != #[trigger] self.cached(
                c2,
                j,
                i2,
            ) by {
                assert(before.cached(c1, j, i1) != before.cached(c2, j, i2));
            }
        }
        assert(self.magazines_hold_objects()) by {
            assert forall|c: int, j: int, i: int| self.in_magazine(c, j, i) implies self.slab(
                j,
            ).is_taken(#[trigger] self.cached(c, j, i)) by {
                let q = before.cached(c, j, i);
                assert(before.slab(j).is_taken(q));
                if j != k {
                    assert(self.slab(j) == before.slab(j));
                } else {
                    assert(before.is_cached(k, q));
                    if moved.contains(q) {
                        let m = choose|m: int| 0 <= m < moved.len() && moved[m] == q;
                        assert(before.in_magazine(cpu, k, keep + m));
                        assert(before.cached(cpu, k, keep + m) == q);
                        assert(before.cached(c, j, i) != before.cached(cpu, k, keep + m));
                    }
                    assert(self.slab(k).is_taken(q) <==> before.slab(k).is_taken(q) && q != p
                        && !moved.contains(q));
                }
            }
        }
        assert(self.cpus()[cpu].wf(self.config())) by {
            let b = self.cpus()[cpu].bundle();
            assert forall|j: int| 0 <= j < b.caches().len() implies (#[trigger] b.caches()[j]).wf() by {
                if j != k {
                    assert(self.cpus()[cpu].bundle().caches()[j] == before.cpus()[cpu].bundle().caches()[j]);
                }
            }
        }
        assert forall|j: int| 0 <= j < self.num_classes() implies (#[trigger] self.slab(
            j,
        )).backed_by(self.frames(), self.translator()) by {
            if j != k {
                assert(self.slab(j) == before.slab(j));
            }
            assert(before.slab(j).backed_by(before.frames(), before.translator()));
        }
        assert(self.pages_distinct()) by {
            assert forall|k1: int, i1: int, k2: int, i2: int|
                0 <= k1 < self.num_classes() && 0 <= k2 < self.num_classes() && k1 != k2 && 0
                    <= i1 < self.slab(k1).pages().len() && 0 <= i2 < self.slab(
                    k2,
                ).pages().len() implies #[trigger] self.slab(k1).pages()[i1]
                != #[trigger] self.slab(k2).pages()[i2] by {
                if k1 != k {
                    assert(self.slab(k1) == before.slab(k1));
                }
                if k2 != k {
                    assert(self.slab(k2) == before.slab(k2));
                }
                assert(before.slab(k1).pages()[i1] != before.slab(k2).pages()[i2]);
            }
        }
        assert(self.huge_wf()) by {
            assert forall|va: usize, j: int, i: int|
                #[trigger] self.huge().contains_key(va) && 0 <= j < self.num_classes() && 0 <= i
                    < self.slab(j).pages().len() implies {
                let page = #[trigger] self.slab(j).pages()[i];
                page < va || page >= va + self.huge_bytes(self.huge()[va])
            } by {
                if j != k {
                    assert(self.slab(j) == before.slab(j));
                }
                let page = before.slab(j).pages()[i];
                assert(page < va || page >= va + before.huge_bytes(before.huge()[va]));
            }
        }
        assert(self.slab(k).is_taken(p) <==> before.slab(k).is_taken(p) && p != p
            && !moved.contains(p));
        assert forall|j: int, q: usize| (j != k || q != p) implies self.is_live(j, q)
            == before.is_live(j, q) by {
            if 0 <= j < self.num_classes() {
                if j != k {
                    assert(self.slab(j) == before.slab(j));
                } else {
                    assert(self.slab(k).is_taken(q) <==> before.slab(k).is_taken(q) && q != p
                        && !moved.contains(q));
                }
                if before.is_cached(j, q) {
                    let (c, i) = choose|c: int, i: int|
                        before.in_magazine(c, j, i) && #[trigger] before.cached(c, j, i) == q;
                    if c == cpu && j == k && i >= keep {
                        assert(moved.contains(before.cached(cpu, k, i)));
                    } else {
                        assert(self.in_magazine(c, j, i));
                        assert(self.cached(c, j, i) == q);
                    }
                }
                if self.is_cached(j, q) {
                    let (c, i) = choose|c: int, i: int|
                        self.in_magazine(c, j, i) && #[trigger] self.cached(c, j, i) == q;
                    assert(before.in_magazine(c, j, i));
                    assert(before.cached(c, j, i) == q);
                }
                if j == k && moved.contains(q) {
                    let m = choose|m: int| 0 <= m < moved.len() && moved[m] == q;
                    assert(before.in_magazine(cpu, k, keep + m));
                    assert(before.cached(cpu, k, keep + m) == q);
                }
            }
        }
    }

    /// Giving a live huge allocation back to the frame allocator keeps the
    /// heap's invariant: no slab page and no other huge allocation lay in
    /// it.
    pub(crate) proof fn lemma_after_huge_dealloc(self, before: KHeap, va: usize)
        requires
            before.wf(),
            before.huge().contains_key(va),
            self.same_small(before),
            self.frames().wf(),
            self.frames().spec_page_size() == before.frames().spec_page_size(),
            self.frames().spec_end() == before.frames().spec_end(),
            self.huge() == before.huge().remove(va),
            forall|a: int|
                self.frames().is_allocated(a) <==> before.frames().is_allocated(a)
                    && !before.huge_region(va, before.huge()[va]).contains(a),
        ensures
            self.wf(),
            forall|j: int, q: usize| self.is_live(j, q) == before.is_live(j, q),
    {
        self.lemma_same_small(before);
        let order = before.huge()[va];
        let region = before.huge_region(va, order);
        let off = before.translator().offset as int;
        assert forall|j: int| 0 <= j < self.num_classes() implies (#[trigger] self.slab(
            j,
        )).backed_by(self.frames(), self.translator()) by {
            assert(before.slab(j).backed_by(before.frames(), before.translator()));
            assert forall|i: int| 0 <= i < self.slab(j).pages().len() implies self.frames().is_allocated(
                self.translator().spec_to_pa(#[trigger] self.slab(j).pages()[i] as int),
            ) by {
                let page = before.slab(j).pages()[i];
                assert(page < va || page >= va + before.huge_bytes(order));
                assert(before.frames().is_allocated(before.translator().spec_to_pa(page as int)));
            }
        }
        assert(self.huge_wf()) by {
            assert forall|w: usize| #[trigger] self.huge().contains_key(w) implies {
                let r = self.huge_region(w, self.huge()[w]);
                &&& w >= self.translator().offset
                &&& w + self.huge_bytes(self.huge()[w]) <= usize::MAX
                &&& r.size > 0
                &&& is_aligned(r.start.0 as int, self.config().spec_page_size() as int)
                &&& is_aligned(r.size as int, self.config().spec_page_size() as int)
                &&& self.frames().region_allocated(r)
            } by {
                assert(before.huge().contains_key(w));
                let r = before.huge_region(w, before.huge()[w]);
                assert(before.frames().region_allocated(r));
                assert(w + before.huge_bytes(before.huge()[w]) <= va || va + before.huge_bytes(
                    order,
                ) <= w);
            }
            assert forall|w1: usize, w2: usize|
                #[trigger] self.huge().contains_key(w1) && #[trigger] self.huge().contains_key(w2)
                    && w1 != w2 implies w1 + self.huge_bytes(self.huge()[w1]) <= w2 || w2
                + self.huge_bytes(self.huge()[w2]) <= w1 by {
                assert(before.huge().contains_key(w1));
                assert(before.huge().contains_key(w2));
            }
            assert forall|w: usize, j: int, i: int|
                #[trigger] self.huge().contains_key(w) && 0 <= j < self.num_classes() && 0 <= i
                    < self.slab(j).pages().len() implies {
                let page = #[trigger] self.slab(j).pages()[i];
                page < w || page >= w + self.huge_bytes(self.huge()[w])
            } by {
                assert(before.huge().contains_key(w));
                let page = before.slab(j).pages()[i];
                assert(page < w || page >= w + before.huge_bytes(before.huge()[w]));
            }
        }
    }

    /// Setting up a CPU with empty magazines, on a page that the frame
    /// allocator has just handed out, keeps the heap's invariant and what
    /// is live.
    pub(crate) proof fn lemma_after_init(self, before: KHeap, cpu: int)
        requires
            before.wf(),
            0 <= cpu < before.cpus().len(),
            !before.cpus()[cpu].initialised(),
            self.config() == before.config(),
            self.translator() == before.translator(),
            self.slab_set() == before.slab_set(),
            self.huge() == before.huge(),
            self.cpus().len() == before.cpus().len(),
            forall|c: int|
                0 <= c < self.cpus().len() && c != cpu ==> #[trigger] self.cpus()[c]
                    == before.cpus()[c],
            self.cpus()[cpu].initialised(),
            self.cpus()[cpu].wf(self.config()),
            forall|k: int|
                0 <= k < self.num_classes() ==> (#[trigger] self.cpus()[cpu].magazine(k)).len()
                    == 0,
            self.frames().wf(),
            self.frames().spec_page_size() == before.frames().spec_page_size(),
            self.frames().spec_end() == before.frames().spec_end(),
            forall|a: int| before.frames().is_allocated(a) ==> self.frames().is_allocated(a),
        ensures
            self.wf(),
            forall|j: int, q: usize| self.is_live(j, q) == before.is_live(j, q),
    {
        assert forall|c: int, j: int, i: int| self.in_magazine(c, j, i) == before.in_magazine(
            c,
            j,
            i,
        ) by {
            if 0 <= c < self.cpus().len() && c != cpu {
                assert(self.cpus()[c] == before.cpus()[c]);
            }
            if c == cpu && 0 <= j < self.num_classes() {
                assert(self.cpus()[cpu].magazine(j).len() == 0);
            }
        }
        assert forall|c: int, j: int, i: int|
            before.in_magazine(c, j, i) implies #[trigger] self.cached(c, j, i) == before.cached(
            c,
            j,
            i,
        ) by {
            assert(self.cpus()[c] == before.cpus()[c]);
        }
        assert(self.magazines_hold_objects()) by {
            assert forall|c: int, j: int, i: int| self.in_magazine(c, j, i) implies self.slab(
                j,
            ).is_taken(#[trigger] self.cached(c, j, i)) by {
                assert(before.slab(j).is_taken(before.cached(c, j, i)));
            }
        }
        assert(self.magazines_distinct()) by {
            assert forall|c1: int, i1: int, c2: int, i2: int, j: int|
                self.in_magazine(c1, j, i1) && self.in_magazine(c2, j, i2) && (c1 != c2 || i1
                    != i2) implies #[trigger] self.cached(c1, j, i1) != #[trigger] self.cached(
                c2,
                j,
                i2,
            ) by {
                assert(before.cached(c1, j, i1) != before.cached(c2, j, i2));
            }
        }
        assert forall|c: int| 0 <= c < self.cpus().len() implies (#[trigger] self.cpus()[c]).wf(
            self.config(),
        ) by {
            if c != cpu {
                assert(self.cpus()[c] == before.cpus()[c]);
                assert(before.cpus()[c].wf(before.config()));
            }
        }
        assert forall|j: int| 0 <= j < self.num_classes() implies #[trigger] self.slab(j)
            == before.slab(j) by {}
        assert forall|j: int| 0 <= j < self.num_classes() implies (#[trigger] self.slab(
            j,
        )).backed_by(self.frames(), self.translator()) by {
            assert(before.slab(j).backed_by(before.frames(), before.translator()));
        }
        assert(self.pages_distinct()) by {
            assert forall|k1: int, i1: int, k2: int, i2: int|
                0 <= k1 < self.num_classes() && 0 <= k2 < self.num_classes() && k1 != k2 && 0
                    <= i1 < self.slab(k1).pages().len() && 0 <= i2 < self.slab(
                    k2,
                ).pages().len() implies #[trigger] self.slab(k1).pages()[i1]
                != #[trigger] self.slab(k2).pages()[i2] by {
                assert(before.slab(k1).pages()[i1] != before.slab(k2).pages()[i2]);
            }
        }
        assert(self.huge_wf()) by {
            assert forall|va: usize| #[trigger] self.huge().contains_key(va) implies {
                let r = self.huge_region(va, self.huge()[va]);
                &&& va >= self.translator().offset
                &&& va + self.huge_bytes(self.huge()[va]) <= usize::MAX
                &&& r.size > 0
                &&& is_aligned(r.start.0 as int, self.config().spec_page_size() as int)
                &&& is_aligned(r.size as int, self.config().spec_page_size() as int)
                &&& self.frames().region_allocated(r)
            } by {
                assert(before.huge().contains_key(va));
                let r = before.huge_region(va, before.huge()[va]);
                assert(before.frames().region_allocated(r));
            }
            assert forall|va: usize, j: int, i: int|
                #[trigger] self.huge().contains_key(va) && 0 <= j < self.num_classes() && 0 <= i
                    < self.slab(j).pages().len() implies {
                let page = #[trigger] self.slab(j).pages()[i];
                page < va || page >= va + self.huge_bytes(self.huge()[va])
            } by {
                let page = before.slab(j).pages()[i];
                assert(page < va || page >= va + before.huge_bytes(before.huge()[va]));
            }
        }
        assert forall|j: int, q: usize| self.is_live(j, q) == before.is_live(j, q) by {
            if before.is_cached(j, q) {
                let (c, i) = choose|c: int, i: int|
                    before.in_magazine(c, j, i) && #[trigger] before.cached(c, j, i) == q;
                assert(self.in_magazine(c, j, i));
                assert(self.cached(c, j, i) == q);
            }
            if self.is_cached(j, q) {
                let (c, i) = choose|c: int, i: int|
                    self.in_magazine(c, j, i) && #[trigger] self.cached(c, j, i) == q;
                assert(before.in_magazine(c, j, i));
                assert(before.cached(c, j, i) == q);
            }
        }
    }
}

} // verus!
