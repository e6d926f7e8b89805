//! The slab allocator of one size class, and the set of them.

use crate::address::PageOffsetTranslator;
use crate::align::{
    is_aligned, lemma_aligned_add, lemma_aligned_apart, lemma_aligned_count,
    lemma_aligned_transitive, lemma_aligned_zero_self,
};
use crate::frames::FrameAllocator;
use crate::layout::Layout;
use crate::params::HeapConfig;
use std::collections::HashMap;
use vstd::prelude::*;

verus! {

/// Whether `p` is the address of an object in the slab page at `base`: it
/// lies a whole number of objects into the page and the object ends within
/// the page.
pub open spec fn slot_in_page(base: int, p: int, object_size: int, page_size: int) -> bool {
    &&& base <= p
    &&& p + object_size <= base + page_size
    &&& is_aligned(p - base, object_size)
}

/// The objects of the slab page at `base`, by rising address.
pub open spec fn page_slots(base: int, object_size: int, page_size: int) -> Seq<usize> {
    Seq::new((page_size / object_size) as nat, |j: int| (base + j * object_size) as usize)
}

/// Two pages that start at different multiples of the page size share no
/// object.
pub proof fn lemma_pages_apart(b1: int, b2: int, p: int, object_size: int, page_size: int)
    requires
        page_size > 0,
        object_size > 0,
        is_aligned(b1, page_size),
        is_aligned(b2, page_size),
        b1 != b2,
        slot_in_page(b1, p, object_size, page_size),
    ensures
        !slot_in_page(b2, p, object_size, page_size),
        !(b2 <= p < b2 + page_size),
{
    if b1 < b2 {
        lemma_aligned_apart(b1, b2, page_size);
    } else {
        lemma_aligned_apart(b2, b1, page_size);
    }
}

/// Two different objects of one page do not overlap.
pub proof fn lemma_slots_apart(base: int, p: int, q: int, object_size: int, page_size: int)
    requires
        object_size > 0,
        slot_in_page(base, p, object_size, page_size),
        slot_in_page(base, q, object_size, page_size),
        p < q,
    ensures
        p + object_size <= q,
{
    lemma_aligned_apart(p - base, q - base, object_size);
}

/// The addresses from `a` up to `end`, one object apart.
pub open spec fn slots_from(a: int, object_size: int, end: int) -> Seq<usize>
    decreases end - a,
{
    if object_size > 0 && a + object_size <= end {
        seq![a as usize] + slots_from(a + object_size, object_size, end)
    } else {
        Seq::empty()
    }
}

/// Walking a page object by object gives the page's objects.
pub proof fn lemma_slots_from(a: int, object_size: int, end: int)
    requires
        object_size > 0,
        a <= end,
        is_aligned(end - a, object_size),
    ensures
        slots_from(a, object_size, end).len() == (end - a) / object_size,
        forall|j: int|
            0 <= j < slots_from(a, object_size, end).len() ==> #[trigger] slots_from(
                a,
                object_size,
                end,
            )[j] == (a + j * object_size) as usize,
    decreases end - a,
{
    let d = object_size;
    lemma_aligned_zero_self(d);
    if a < end {
        lemma_aligned_apart(0, end - a, d);
        lemma_aligned_add(end - a, d, d);
        lemma_slots_from(a + d, d, end);
        let rest = slots_from(a + d, d, end);
        let all = slots_from(a, d, end);
        crate::align::lemma_aligned_quotient(end - a, d);
        crate::align::lemma_aligned_quotient(end - a - d, d);
        let x = (end - a) / d;
        let y = (end - a - d) / d;
        assert(x == y + 1) by (nonlinear_arith)
            requires
                d > 0,
                end - a == d * x,
                end - a - d == d * y,
        ;
        assert forall|j: int| 0 <= j < all.len() implies #[trigger] all[j] == (a + j * d) as usize by {
            if j == 0 {
                assert(0 * d == 0) by (nonlinear_arith);
            } else {
                assert(all[j] == rest[j - 1]);
                assert(a + d + (j - 1) * d == a + j * d) by (nonlinear_arith);
            }
        }
    } else {
        assert((end - a) / d == 0);
    }
}

/// Walking a whole page gives the page's objects by rising address.
pub proof fn lemma_page_walk(base: int, object_size: int, page_size: int)
    requires
        0 < object_size,
        0 <= page_size,
        is_aligned(page_size, object_size),
    ensures
        slots_from(base, object_size, base + page_size) == page_slots(
            base,
            object_size,
            page_size,
        ),
{
    lemma_slots_from(base, object_size, base + page_size);
    assert(slots_from(base, object_size, base + page_size) =~= page_slots(
        base,
        object_size,
        page_size,
    ));
}

/// The objects listed for a page are exactly the objects of that page.
pub proof fn lemma_page_slots(base: int, object_size: int, page_size: int)
    requires
        0 < object_size <= page_size,
        is_aligned(page_size, object_size),
        0 <= base,
        base + page_size <= usize::MAX,
    ensures
        forall|j: int|
            0 <= j < page_slots(base, object_size, page_size).len() ==> slot_in_page(
                base,
                #[trigger] page_slots(base, object_size, page_size)[j] as int,
                object_size,
                page_size,
            ),
        forall|q: usize|
            slot_in_page(base, q as int, object_size, page_size) ==> page_slots(
                base,
                object_size,
                page_size,
            ).contains(q),
{
    let slots = page_slots(base, object_size, page_size);
    let n = page_size / object_size;
    lemma_aligned_count(page_size, object_size);
    assert forall|j: int| 0 <= j < slots.len() implies slot_in_page(
        base,
        #[trigger] slots[j] as int,
        object_size,
        page_size,
    ) by {
        assert(0 <= j * object_size && (j + 1) * object_size <= n * object_size && (j + 1)
            * object_size == j * object_size + object_size && n * object_size == object_size * n)
            by (nonlinear_arith)
            requires
                0 <= j < n,
                object_size > 0,
        ;
        crate::align::lemma_aligned_scaled(object_size, j);
    }
    assert forall|q: usize| slot_in_page(base, q as int, object_size, page_size) implies slots.contains(
        q,
    ) by {
        crate::align::lemma_aligned_quotient(q - base, object_size);
        let j = (q - base) / object_size;
        assert(0 <= j < n) by (nonlinear_arith)
            requires
                q - base == object_size * j,
                0 <= q - base,
                q - base + object_size <= page_size,
                page_size == object_size * n,
                object_size > 0,
        ;
        assert(j * object_size == object_size * j) by (nonlinear_arith);
        assert(slots[j] == q);
    }
}

/// No address of a walk lies below where the walk starts.
pub proof fn lemma_slots_from_lower_bound(a: int, object_size: int, end: int, j: int)
    requires
        0 <= a,
        end <= usize::MAX,
        0 <= j < slots_from(a, object_size, end).len(),
    ensures
        slots_from(a, object_size, end)[j] >= a,
    decreases end - a,
{
    if object_size > 0 && a + object_size <= end && j > 0 {
        lemma_slots_from_lower_bound(a + object_size, object_size, end, j - 1);
        assert(slots_from(a, object_size, end)[j] == slots_from(
            a + object_size,
            object_size,
            end,
        )[j - 1]);
    }
}

/// The slab allocator of one size class. Its free objects form a list
/// threaded through the objects themselves: the first word of a free object
/// holds the address of the next, and 0 ends the list.
pub struct SlabManager {
    object_size: usize,
    page_size: usize,
    /// Address of the first free object, or 0.
    head: usize,
    /// The first word of each free object, by the object's address.
    links: HashMap<usize, usize>,
    /// Where each slab page starts.
    pages: Vec<usize>,
    /// The free list, head first.
    free: Ghost<Seq<usize>>,
}

impl SlabManager {
    /// Bytes in an object.
    pub closed spec fn spec_object_size(self) -> nat {
        self.object_size as nat
    }

    /// Bytes in a page.
    pub closed spec fn spec_page_size(self) -> nat {
        self.page_size as nat
    }

    /// The free list, head first.
    pub closed spec fn free_list(self) -> Seq<usize> {
        self.free@
    }

    /// Where each slab page starts, oldest first.
    pub closed spec fn pages(self) -> Seq<usize> {
        self.pages@
    }

    /// Whether `p` is the address of an object in one of the slab's pages.
    pub open spec fn is_slot(self, p: int) -> bool {
        exists|i: int|
            0 <= i < self.pages().len() && slot_in_page(
                #[trigger] self.pages()[i] as int,
                p,
                self.spec_object_size() as int,
                self.spec_page_size() as int,
            )
    }

    /// Whether `p` is an object of the slab that is handed out: not on the
    /// free list.
    pub open spec fn is_taken(self, p: usize) -> bool {
        self.is_slot(p as int) && !self.free_list().contains(p)
    }

    /// The list in memory is the free list: the head is its first object,
    /// each object's first word names the next, and only free objects hold
    /// a link.
    pub closed spec fn chain_ok(self) -> bool {
        &&& self.head == (if self.free@.len() == 0 {
            0
        } else {
            self.free@[0]
        })
        &&& forall|j: int|
            0 <= j < self.free@.len() ==> self.links@.contains_key(#[trigger] self.free@[j])
                && self.links@[self.free@[j]] == (if j + 1 < self.free@.len() {
                self.free@[j + 1]
            } else {
                0
            })
        &&& forall|p: usize| self.links@.contains_key(p) ==> self.free@.contains(p)
    }

    /// The invariant of a slab allocator.
    pub open spec fn wf(self) -> bool {
        &&& self.chain_ok()
        &&& 0 < self.spec_object_size() <= self.spec_page_size()
        &&& is_aligned(self.spec_page_size() as int, self.spec_object_size() as int)
        &&& forall|i: int|
            0 <= i < self.pages().len() ==> {
                &&& (#[trigger] self.pages()[i]) > 0
                &&& is_aligned(self.pages()[i] as int, self.spec_page_size() as int)
                &&& self.pages()[i] + self.spec_page_size() <= usize::MAX
            }
        &&& forall|i: int, j: int|
            0 <= i < self.pages().len() && 0 <= j < self.pages().len() && i != j
                ==> #[trigger] self.pages()[i] != #[trigger] self.pages()[j]
        &&& self.free_list().no_duplicates()
        &&& forall|j: int|
            0 <= j < self.free_list().len() ==> self.is_slot(#[trigger] self.free_list()[j] as int)
    }

    /// What is an object of one slab is an object of another with the same
    /// pages, or with one page more.
    pub proof fn lemma_slot_kept(self, other: SlabManager, p: int)
        requires
            self.is_slot(p),
            other.spec_object_size() == self.spec_object_size(),
            other.spec_page_size() == self.spec_page_size(),
            self.pages().len() <= other.pages().len(),
            forall|i: int| 0 <= i < self.pages().len() ==> self.pages()[i] == other.pages()[i],
        ensures
            other.is_slot(p),
    {
        let i = choose|i: int|
            0 <= i < self.pages().len() && slot_in_page(
                #[trigger] self.pages()[i] as int,
                p,
                self.spec_object_size() as int,
                self.spec_page_size() as int,
            );
        assert(slot_in_page(
            other.pages()[i] as int,
            p,
            other.spec_object_size() as int,
            other.spec_page_size() as int,
        ));
    }

    /// An object lies in one page only, is not null, and is aligned to the
    /// object size.
    pub proof fn lemma_slot(self, p: int)
        requires
            self.wf(),
            self.is_slot(p),
        ensures
            0 < p,
            p + self.spec_object_size() <= usize::MAX,
            is_aligned(p, self.spec_object_size() as int),
            forall|i: int, j: int|
                0 <= i < self.pages().len() && 0 <= j < self.pages().len() && slot_in_page(
                    #[trigger] self.pages()[i] as int,
                    p,
                    self.spec_object_size() as int,
                    self.spec_page_size() as int,
                ) && slot_in_page(
                    #[trigger] self.pages()[j] as int,
                    p,
                    self.spec_object_size() as int,
                    self.spec_page_size() as int,
                ) ==> i == j,
    {
        let os = self.spec_object_size() as int;
        let ps = self.spec_page_size() as int;
        let i = choose|i: int|
            0 <= i < self.pages().len() && slot_in_page(
                #[trigger] self.pages()[i] as int,
                p,
                os,
                ps,
            );
        let base = self.pages()[i] as int;
        lemma_aligned_transitive(base, ps, os);
        lemma_aligned_add(p - base, base, os);
        assert forall|i: int, j: int|
            0 <= i < self.pages().len() && 0 <= j < self.pages().len() && slot_in_page(
                #[trigger] self.pages()[i] as int,
                p,
                os,
                ps,
            ) && slot_in_page(#[trigger] self.pages()[j] as int, p, os, ps) implies i == j by {
            if i != j {
                lemma_pages_apart(self.pages()[i] as int, self.pages()[j] as int, p, os, ps);
            }
        }
    }

    /// Two different objects of the slab do not overlap.
    pub proof fn lemma_slots_disjoint(self, p: int, q: int)
        requires
            self.wf(),
            self.is_slot(p),
            self.is_slot(q),
            p != q,
        ensures
            p + self.spec_object_size() <= q || q + self.spec_object_size() <= p,
    {
        let os = self.spec_object_size() as int;
        let ps = self.spec_page_size() as int;
        let i = choose|i: int|
            0 <= i < self.pages().len() && slot_in_page(
                #[trigger] self.pages()[i] as int,
                p,
                os,
                ps,
            );
        let j = choose|j: int|
            0 <= j < self.pages().len() && slot_in_page(
                #[trigger] self.pages()[j] as int,
                q,
                os,
                ps,
            );
        if i == j {
            if p < q {
                lemma_slots_apart(self.pages()[i] as int, p, q, os, ps);
            } else {
                lemma_slots_apart(self.pages()[i] as int, q, p, os, ps);
            }
        } else {
            lemma_pages_apart(self.pages()[i] as int, self.pages()[j] as int, p, os, ps);
            lemma_pages_apart(self.pages()[j] as int, self.pages()[i] as int, q, os, ps);
            if self.pages()[i] < self.pages()[j] {
                lemma_aligned_apart(self.pages()[i] as int, self.pages()[j] as int, ps);
            } else {
                lemma_aligned_apart(self.pages()[j] as int, self.pages()[i] as int, ps);
            }
        }
    }

    /// A slab allocator with no page and no object.
    pub fn new(object_size: usize, page_size: usize) -> (r: SlabManager)
        requires
            0 < object_size <= page_size,
            is_aligned(page_size as int, object_size as int),
        ensures
            r.wf(),
            r.spec_object_size() == object_size,
            r.spec_page_size() == page_size,
            r.pages() == Seq::<usize>::empty(),
            r.free_list() == Seq::<usize>::empty(),
    {
        broadcast use vstd::std_specs::hash::group_hash_axioms;

        SlabManager {
            object_size,
            page_size,
            head: 0,
            links: HashMap::new(),
            pages: Vec::new(),
            free: Ghost(Seq::empty()),
        }
    }

    /// Bytes in an object.
    pub fn object_size(&self) -> (r: usize)
        ensures
            r == self.spec_object_size(),
    {
        self.object_size
    }

    /// Number of slab pages.
    pub fn num_pages(&self) -> (r: usize)
        ensures
            r == self.pages().len(),
    {
        self.pages.len()
    }

    /// Where the `i`-th slab page starts.
    pub fn page(&self, i: usize) -> (r: usize)
        requires
            i < self.pages().len(),
        ensures
            r == self.pages()[i as int],
    {
        self.pages[i]
    }

    /// Whether the free list is empty.
    pub fn is_exhausted(&self) -> (r: bool)
        requires
            self.wf(),
        ensures
            r == (self.free_list().len() == 0),
    {
        proof {
            if self.free@.len() > 0 {
                assert(self.is_slot(self.free_list()[0] as int));
                self.lemma_slot(self.free@[0] as int);
            }
        }
        self.head == 0
    }

    /// Number of free objects.
    pub fn free_count(&self) -> (r: usize)
        requires
            self.wf(),
        ensures
            r == self.free_list().len(),
    {
        broadcast use vstd::std_specs::hash::group_hash_axioms;

        proof {
            assert(self.links@.dom() =~= self.free@.to_set()) by {
                assert forall|p: usize|
                    self.links@.dom().contains(p) <==> self.free@.to_set().contains(p) by {
                    if self.free@.contains(p) {
                        let j = choose|j: int| 0 <= j < self.free@.len() && self.free@[j] == p;
                        assert(self.links@.contains_key(self.free@[j]));
                    }
                }
            }
            self.free@.unique_seq_to_set();
        }
        self.links.len()
    }

    /// Takes the head of the free list; `None` where the list is empty. Never
    /// adds a page.
    pub fn try_alloc(&mut self) -> (r: Option<usize>)
        requires
            old(self).wf(),
        ensures
            final(self).wf(),
            final(self).spec_object_size() == old(self).spec_object_size(),
            final(self).spec_page_size() == old(self).spec_page_size(),
            final(self).pages() == old(self).pages(),
            r.is_none() <==> old(self).free_list().len() == 0,
            r.is_none() ==> final(self).free_list() == old(self).free_list(),
            r matches Some(p) ==> p == old(self).free_list()[0] && final(self).free_list() == old(
                self,
            ).free_list().skip(1),
            r matches Some(p) ==> !old(self).is_taken(p) && forall|q: usize|
                #[trigger] final(self).is_taken(q) <==> old(self).is_taken(q) || q == p,
    {
        broadcast use vstd::std_specs::hash::group_hash_axioms;

        if self.is_exhausted() {
            return None;
        }
        let p = self.head;
        let ghost before = *self;
        assert(self.links@.contains_key(self.free@[0]));
        let next = match self.links.get(&p) {
            Some(n) => *n,
            None => 0,
        };
        self.links.remove(&p);
        self.head = next;
        self.free = Ghost(self.free@.skip(1));
        proof {
            let f0 = before.free@;
            let f1 = self.free@;
            assert forall|j: int| 0 <= j < f1.len() implies #[trigger] f1[j] == f0[j + 1] by {}
            assert forall|j: int| 0 <= j < f1.len() implies self.links@.contains_key(
                #[trigger] f1[j],
            ) && self.links@[f1[j]] == (if j + 1 < f1.len() {
                f1[j + 1]
            } else {
                0
            }) by {
                assert(f0[j + 1] != f0[0]);
                assert(before.links@.contains_key(f0[j + 1]));
            }
            assert forall|q: usize| self.links@.contains_key(q) implies f1.contains(q) by {
                assert(before.links@.contains_key(q));
                assert(f0.contains(q));
                let j = choose|j: int| 0 <= j < f0.len() && f0[j] == q;
                assert(j != 0);
                assert(f1[j - 1] == q);
            }
            assert(f1.no_duplicates());
            assert forall|j: int| 0 <= j < self.free_list().len() implies self.is_slot(
                #[trigger] self.free_list()[j] as int,
            ) by {
                assert(before.is_slot(before.free_list()[j + 1] as int));
                before.lemma_slot_kept(*self, before.free_list()[j + 1] as int);
            }
            assert(f0.contains(p));
            assert forall|q: usize| #[trigger] self.is_taken(q) <==> before.is_taken(q) || q == p by {
                if before.is_slot(q as int) {
                    before.lemma_slot_kept(*self, q as int);
                }
                if self.is_slot(q as int) {
                    self.lemma_slot_kept(before, q as int);
                }
                if f1.contains(q) {
                    let j = choose|j: int| 0 <= j < f1.len() && f1[j] == q;
                    assert(f0[j + 1] == q);
                }
                if f0.contains(q) && q != p {
                    let j = choose|j: int| 0 <= j < f0.len() && f0[j] == q;
                    assert(f1[j - 1] == q);
                }
                if q == p {
                    assert(before.is_slot(before.free_list()[0] as int));
                }
            }
        }
        Some(p)
    }

    /// Puts an object at the head of the free list.
    pub fn free(&mut self, ptr: usize)
        requires
            old(self).wf(),
            old(self).is_slot(ptr as int),
            !old(self).free_list().contains(ptr),
        ensures
            final(self).wf(),
            final(self).spec_object_size() == old(self).spec_object_size(),
            final(self).spec_page_size() == old(self).spec_page_size(),
            final(self).pages() == old(self).pages(),
            final(self).free_list() == seq![ptr] + old(self).free_list(),
            forall|q: usize| #[trigger] final(self).is_taken(q) <==> old(self).is_taken(q) && q != ptr,
    {
        broadcast use vstd::std_specs::hash::group_hash_axioms;

        let ghost before = *self;
        self.links.insert(ptr, self.head);
        self.head = ptr;
        self.free = Ghost(seq![ptr] + self.free@);
        proof {
            let f0 = before.free@;
            let f1 = self.free@;
            assert(f1[0] == ptr);
            assert forall|j: int| 1 <= j < f1.len() implies #[trigger] f1[j] == f0[j - 1] by {}
            assert forall|j: int| 0 <= j < f1.len() implies self.links@.contains_key(
                #[trigger] f1[j],
            ) && self.links@[f1[j]] == (if j + 1 < f1.len() {
                f1[j + 1]
            } else {
                0
            }) by {
                if j > 0 {
                    assert(f0.contains(f0[j - 1]));
                    assert(before.links@.contains_key(f0[j - 1]));
                }
            }
            assert forall|q: usize| self.links@.contains_key(q) implies f1.contains(q) by {
                if q != ptr {
                    assert(f0.contains(q));
                    let j = choose|j: int| 0 <= j < f0.len() && f0[j] == q;
                    assert(f1[j + 1] == q);
                }
            }
            assert forall|i: int, j: int| 0 <= i < f1.len() && 0 <= j < f1.len() && i != j implies f1[i]
                != f1[j] by {
                if i > 0 {
                    assert(f0.contains(f0[i - 1]));
                }
                if j > 0 {
                    assert(f0.contains(f0[j - 1]));
                }
            }
            assert forall|j: int| 0 <= j < self.free_list().len() implies self.is_slot(
                #[trigger] self.free_list()[j] as int,
            ) by {
                if j > 0 {
                    assert(before.is_slot(before.free_list()[j - 1] as int));
                    before.lemma_slot_kept(*self, before.free_list()[j - 1] as int);
                } else {
                    before.lemma_slot_kept(*self, ptr as int);
                }
            }
            assert forall|q: usize| #[trigger] self.is_taken(q) <==> before.is_taken(q) && q != ptr by {
                if before.is_slot(q as int) {
                    before.lemma_slot_kept(*self, q as int);
                }
                if self.is_slot(q as int) {
                    self.lemma_slot_kept(before, q as int);
                }
                if f1.contains(q) && q != ptr {
                    let j = choose|j: int| 0 <= j < f1.len() && f1[j] == q;
                    assert(f0[j - 1] == q);
                }
                if f0.contains(q) {
                    let j = choose|j: int| 0 <= j < f0.len() && f0[j] == q;
                    assert(f1[j + 1] == q);
                }
            }
        }
    }

    /// Takes charge of the page at `base`: carves it into objects and puts
    /// them all on the free list, lowest address first.
    pub fn grow(&mut self, base: usize)
        requires
            old(self).wf(),
            base > 0,
            is_aligned(base as int, old(self).spec_page_size() as int),
            base + old(self).spec_page_size() <= usize::MAX,
            forall|i: int| 0 <= i < old(self).pages().len() ==> old(self).pages()[i] != base,
        ensures
            final(self).wf(),
            final(self).spec_object_size() == old(self).spec_object_size(),
            final(self).spec_page_size() == old(self).spec_page_size(),
            final(self).pages() == old(self).pages().push(base),
            final(self).free_list() == page_slots(
                base as int,
                old(self).spec_object_size() as int,
                old(self).spec_page_size() as int,
            ) + old(self).free_list(),
            forall|q: usize| #[trigger] final(self).is_taken(q) <==> old(self).is_taken(q),
    {
        let ghost before = *self;
        let ghost os = self.object_size as int;
        let ghost ps = self.page_size as int;
        let ghost end = base + ps;
        self.pages.push(base);
        proof {
            before.lemma_page_added(*self, base);
            lemma_aligned_zero_self(os);
            assert(self.free@ =~= slots_from(end, os, end) + before.free@);
        }
        let mut addr: usize = base + self.page_size;
        while addr > base
            invariant
                self.wf(),
                before.wf(),
                os == self.object_size,
                ps == self.page_size,
                os == before.object_size,
                ps == before.page_size,
                end == base + ps,
                is_aligned(os, os),
                is_aligned(0, os),
                self.pages@ == before.pages@.push(base),
                forall|i: int| 0 <= i < before.pages@.len() ==> before.pages@[i] != base,
                is_aligned(base as int, ps),
                base <= addr <= end,
                end <= usize::MAX,
                is_aligned(addr - base, os),
                self.free@ == slots_from(addr as int, os, end) + before.free@,
            decreases addr - base,
        {
            proof {
                lemma_aligned_apart(0, addr - base, os);
                lemma_aligned_add(addr - base, os, os);
            }
            let ghost prev = addr;
            addr = addr - self.object_size;
            proof {
                before.lemma_fresh_slot(*self, base, addr, prev);
            }
            self.free(addr);
            proof {
                assert(self.free@ =~= slots_from(addr as int, os, end) + before.free@);
            }
        }
        proof {
            lemma_page_walk(base as int, os, ps);
            before.lemma_grown(*self, base);
        }
    }

    /// A page just carved adds free objects only: what is handed out stays
    /// as it was.
    proof fn lemma_grown(self, after: SlabManager, base: usize)
        requires
            self.wf(),
            after.wf(),
            after.object_size == self.object_size,
            after.page_size == self.page_size,
            base + self.page_size <= usize::MAX,
            after.pages@ == self.pages@.push(base),
            forall|i: int| 0 <= i < self.pages@.len() ==> self.pages@[i] != base,
            after.free@ == slots_from(base as int, self.object_size as int, base + self.page_size)
                + self.free@,
        ensures
            forall|q: usize| #[trigger] after.is_taken(q) <==> self.is_taken(q),
    {
        let os = self.object_size as int;
        let ps = self.page_size as int;
        let n = after.pages@.len() - 1;
        assert(after.pages()[n] == base);
        lemma_page_walk(base as int, os, ps);
        lemma_page_slots(base as int, os, ps);
        let slots = page_slots(base as int, os, ps);
        assert forall|q: usize| #[trigger] after.is_taken(q) <==> self.is_taken(q) by {
            if self.is_slot(q as int) {
                self.lemma_slot_kept(after, q as int);
                let i = choose|i: int|
                    0 <= i < self.pages().len() && slot_in_page(
                        #[trigger] self.pages()[i] as int,
                        q as int,
                        os,
                        ps,
                    );
                lemma_pages_apart(self.pages()[i] as int, base as int, q as int, os, ps);
                if slots.contains(q) {
                    let j = choose|j: int| 0 <= j < slots.len() && slots[j] == q;
                    assert(slot_in_page(base as int, slots[j] as int, os, ps));
                }
                if after.free@.contains(q) {
                    let j = choose|j: int| 0 <= j < after.free@.len() && after.free@[j] == q;
                    if j < slots.len() {
                        assert(slots[j] == q);
                    } else {
                        assert(self.free@[j - slots.len()] == q);
                    }
                }
                if self.free@.contains(q) {
                    let j = choose|j: int| 0 <= j < self.free@.len() && self.free@[j] == q;
                    assert(after.free@[slots.len() + j] == q);
                }
            } else if after.is_slot(q as int) {
                let i = choose|i: int|
                    0 <= i < after.pages().len() && slot_in_page(
                        #[trigger] after.pages()[i] as int,
                        q as int,
                        os,
                        ps,
                    );
                if i < n {
                    assert(self.pages()[i] == after.pages()[i]);
                    assert(self.is_slot(q as int));
                }
                assert(slots.contains(q));
                let j = choose|j: int| 0 <= j < slots.len() && slots[j] == q;
                assert(after.free@[j] == q);
            }
        }
    }

    /// Adding a page that starts where no other does keeps the invariant.
    proof fn lemma_page_added(self, after: SlabManager, base: usize)
        requires
            self.wf(),
            base > 0,
            is_aligned(base as int, self.spec_page_size() as int),
            base + self.spec_page_size() <= usize::MAX,
            forall|i: int| 0 <= i < self.pages().len() ==> self.pages()[i] != base,
            after.pages@ == self.pages@.push(base),
            after.object_size == self.object_size,
            after.page_size == self.page_size,
            after.head == self.head,
            after.links == self.links,
            after.free == self.free,
        ensures
            after.wf(),
    {
        assert forall|j: int| 0 <= j < after.free_list().len() implies after.is_slot(
            #[trigger] after.free_list()[j] as int,
        ) by {
            assert(self.is_slot(self.free_list()[j] as int));
            self.lemma_slot_kept(after, self.free_list()[j] as int);
        }
    }

    /// While a page is being carved, the object just below the ones already
    /// carved is an object of the slab and is not yet free.
    proof fn lemma_fresh_slot(self, now: SlabManager, base: usize, addr: usize, prev: usize)
        requires
            self.wf(),
            now.wf(),
            now.object_size == self.object_size,
            now.page_size == self.page_size,
            now.pages@ == self.pages@.push(base),
            forall|i: int| 0 <= i < self.pages@.len() ==> self.pages@[i] != base,
            is_aligned(base as int, self.page_size as int),
            base + self.page_size <= usize::MAX,
            base <= addr,
            prev == addr + self.object_size,
            prev <= base + self.page_size,
            is_aligned(addr - base, self.object_size as int),
            now.free@ == slots_from(prev as int, self.object_size as int, base + self.page_size)
                + self.free@,
        ensures
            now.is_slot(addr as int),
            !now.free_list().contains(addr),
    {
        let os = self.object_size as int;
        let ps = self.page_size as int;
        let end = base + ps;
        let added = slots_from(prev as int, os, end);
        let n = now.pages@.len() - 1;
        assert(now.pages()[n] == base);
        assert(slot_in_page(now.pages()[n] as int, addr as int, os, ps));
        if now.free_list().contains(addr) {
            let j = choose|j: int| 0 <= j < now.free@.len() && now.free@[j] == addr;
            if j < added.len() {
                lemma_slots_from_lower_bound(prev as int, os, end, j);
            } else {
                let q = self.free@[j - added.len()];
                assert(q == addr);
                assert(self.is_slot(self.free_list()[j - added.len()] as int));
                let i = choose|i: int|
                    0 <= i < self.pages().len() && slot_in_page(
                        #[trigger] self.pages()[i] as int,
                        q as int,
                        os,
                        ps,
                    );
                lemma_pages_apart(self.pages()[i] as int, base as int, q as int, os, ps);
            }
        }
    }

    /// Whether every slab page is memory that the frame allocator has handed
    /// out, seen through the kernel's linear map.
    pub open spec fn backed_by(self, frames: FrameAllocator, translator: PageOffsetTranslator) -> bool {
        forall|i: int|
            0 <= i < self.pages().len() ==> frames.is_allocated(
                translator.spec_to_pa(#[trigger] self.pages()[i] as int),
            )
    }

    /// Takes one page from the frame allocator and carves it into objects.
    pub fn refill(&mut self, frames: &mut FrameAllocator, translator: &PageOffsetTranslator) -> (r:
        usize)
        requires
            old(self).wf(),
            old(frames).wf(),
            old(frames).spec_page_size() == old(self).spec_page_size(),
            is_aligned(translator.offset as int, old(self).spec_page_size() as int),
            old(frames).spec_end() + translator.offset <= usize::MAX,
            old(self).backed_by(*old(frames), *translator),
            old(frames).can_alloc(0),
        ensures
            final(self).wf(),
            final(frames).wf(),
            final(self).spec_object_size() == old(self).spec_object_size(),
            final(self).spec_page_size() == old(self).spec_page_size(),
            final(frames).spec_page_size() == old(frames).spec_page_size(),
            final(frames).spec_base() == old(frames).spec_base(),
            final(frames).spec_end() == old(frames).spec_end(),
            final(self).backed_by(*final(frames), *translator),
            old(frames).served(0, *final(frames)),
            r == translator.spec_to_va(old(frames).spec_pick(0)),
            final(self).pages() == old(self).pages().push(r),
            final(self).free_list() == page_slots(
                r as int,
                old(self).spec_object_size() as int,
                old(self).spec_page_size() as int,
            ) + old(self).free_list(),
            forall|a: int|
                old(frames).spec_pick(0) <= a < old(frames).spec_pick(0) + old(
                    self,
                ).spec_page_size() ==> !old(frames).is_allocated(a),
            forall|a: int|
                final(frames).is_allocated(a) <==> old(frames).is_allocated(a) || (old(
                    frames,
                ).spec_pick(0) <= a < old(frames).spec_pick(0) + old(self).spec_page_size()),
            forall|q: usize| #[trigger] final(self).is_taken(q) <==> old(self).is_taken(q),
    {
        let ghost before = *self;
        let ghost ps = self.page_size as int;
        proof {
            vstd::arithmetic::power2::lemma2_to64();
            assert(frames.order_bytes(0) == ps) by {
                assert(ps * 1 == ps) by (nonlinear_arith);
            }
        }
        let region = match frames.alloc_frames(0) {
            Some(p) => p.leak(),
            None => {
                return 0;
            },
        };
        proof {
            let pa = old(frames).spec_pick(0);
            assert(region.start.0 == pa);
            assert(region.size == ps);
            assert forall|a: int| pa <= a < pa + ps implies !old(frames).is_allocated(a) by {
                assert(region.contains(a));
            }
            assert forall|a: int|
                frames.is_allocated(a) <==> old(frames).is_allocated(a) || (pa <= a < pa + ps) by {
                assert(region.contains(a) == (pa <= a < pa + ps));
            }
            lemma_aligned_add(pa, translator.offset as int, ps);
            assert(region.contains(pa));
            assert(frames.is_allocated(pa));
            assert(!old(frames).is_allocated(pa));
            frames.lemma_allocated_in_bounds(pa);
        }
        let va = translator.pa_to_va(region.start_address());
        proof {
            assert forall|i: int| 0 <= i < self.pages().len() implies self.pages()[i] != va.0 by {
                assert(old(frames).is_allocated(translator.spec_to_pa(self.pages()[i] as int)));
            }
        }
        self.grow(va.0);
        proof {
            assert forall|i: int| 0 <= i < self.pages().len() implies frames.is_allocated(
                translator.spec_to_pa(#[trigger] self.pages()[i] as int),
            ) by {
                if i < before.pages().len() {
                    assert(self.pages()[i] == before.pages()[i]);
                    assert(old(frames).is_allocated(
                        translator.spec_to_pa(before.pages()[i] as int),
                    ));
                }
            }
        }
        va.0
    }

    /// The first object of a page is the page's own address.
    pub proof fn lemma_first_slot(base: int, object_size: int, page_size: int)
        requires
            0 < object_size <= page_size,
            is_aligned(page_size, object_size),
            0 <= base <= usize::MAX,
        ensures
            page_slots(base, object_size, page_size).len() == page_size / object_size,
            page_size / object_size >= 1,
            page_slots(base, object_size, page_size)[0] == base,
    {
        lemma_aligned_count(page_size, object_size);
        assert(0 * object_size == 0) by (nonlinear_arith);
    }

    /// Allocates an object: the head of the free list. Where the list is
    /// empty, first takes one page from the frame allocator and carves it.
    pub fn allocate(&mut self, frames: &mut FrameAllocator, translator: &PageOffsetTranslator) -> (r:
        usize)
        requires
            old(self).wf(),
            old(frames).wf(),
            old(frames).spec_page_size() == old(self).spec_page_size(),
            is_aligned(translator.offset as int, old(self).spec_page_size() as int),
            old(frames).spec_end() + translator.offset <= usize::MAX,
            old(self).backed_by(*old(frames), *translator),
            old(self).free_list().len() == 0 ==> old(frames).can_alloc(0),
        ensures
            final(self).wf(),
            final(frames).wf(),
            final(self).spec_object_size() == old(self).spec_object_size(),
            final(self).spec_page_size() == old(self).spec_page_size(),
            final(frames).spec_page_size() == old(frames).spec_page_size(),
            final(frames).spec_base() == old(frames).spec_base(),
            final(frames).spec_end() == old(frames).spec_end(),
            final(self).backed_by(*final(frames), *translator),
            old(self).free_list().len() > 0 ==> {
                &&& r == old(self).free_list()[0]
                &&& final(self).free_list() == old(self).free_list().skip(1)
                &&& final(self).pages() == old(self).pages()
                &&& *final(frames) == *old(frames)
            },
            old(self).free_list().len() == 0 ==> {
                &&& old(frames).served(0, *final(frames))
                &&& r == translator.spec_to_va(old(frames).spec_pick(0))
                &&& final(self).pages() == old(self).pages().push(r)
                &&& final(self).free_list() == page_slots(
                    r as int,
                    old(self).spec_object_size() as int,
                    old(self).spec_page_size() as int,
                ).skip(1)
                &&& forall|a: int|
                    old(frames).spec_pick(0) <= a < old(frames).spec_pick(0) + old(
                        self,
                    ).spec_page_size() ==> !old(frames).is_allocated(a)
                &&& forall|a: int|
                    final(frames).is_allocated(a) <==> old(frames).is_allocated(a) || (old(
                        frames,
                    ).spec_pick(0) <= a < old(frames).spec_pick(0) + old(self).spec_page_size())
            },
            !old(self).is_taken(r),
            forall|q: usize| #[trigger] final(self).is_taken(q) <==> old(self).is_taken(q) || q == r,
    {
        if self.is_exhausted() {
            let va = self.refill(frames, translator);
            proof {
                Self::lemma_first_slot(
                    va as int,
                    self.object_size as int,
                    self.page_size as int,
                );
                assert(self.free_list() =~= page_slots(
                    va as int,
                    self.object_size as int,
                    self.page_size as int,
                ));
            }
        }
        match self.try_alloc() {
            Some(p) => p,
            None => 0,
        }
    }
}

/// The slab allocators of all size classes. Each is reached by taking its
/// lock, and the set counts how often a lock was taken.
pub struct SlabAllocator {
    config: HeapConfig,
    slabs: Vec<SlabManager>,
    locks_taken: usize,
}

impl SlabAllocator {
    /// The parameters the set was made for.
    pub closed spec fn spec_config(self) -> HeapConfig {
        self.config
    }

    /// The allocators, by size class.
    pub closed spec fn slabs(self) -> Seq<SlabManager> {
        self.slabs@
    }

    /// How often a lock of the set was taken; stops counting at the largest
    /// number it can hold.
    pub closed spec fn spec_locks_taken(self) -> nat {
        self.locks_taken as nat
    }

    /// The invariant of the set: one well-formed allocator per size class,
    /// each for objects of its class's size.
    pub open spec fn wf(self) -> bool {
        &&& self.spec_config().wf()
        &&& self.slabs().len() == self.spec_config().spec_num_classes()
        &&& forall|k: int|
            0 <= k < self.slabs().len() ==> {
                &&& (#[trigger] self.slabs()[k]).wf()
                &&& self.slabs()[k].spec_object_size() == self.spec_config().spec_object_size(
                    k as nat,
                )
                &&& self.slabs()[k].spec_page_size() == self.spec_config().spec_page_size()
            }
    }

    /// The count after one more lock is taken.
    pub open spec fn count_up(n: nat) -> nat {
        if n < usize::MAX {
            n + 1
        } else {
            n
        }
    }

    /// One empty allocator per size class.
    pub fn new(config: HeapConfig) -> (r: SlabAllocator)
        requires
            config.wf(),
        ensures
            r.wf(),
            r.spec_config() == config,
            r.spec_locks_taken() == 0,
            forall|k: int|
                0 <= k < r.slabs().len() ==> (#[trigger] r.slabs()[k]).pages().len() == 0
                    && r.slabs()[k].free_list().len() == 0,
    {
        let n = config.num_classes();
        let page_size = config.page_size();
        let mut slabs: Vec<SlabManager> = Vec::new();
        let mut k: usize = 0;
        while k < n
            invariant
                config.wf(),
                n == config.spec_num_classes(),
                page_size == config.spec_page_size(),
                k <= n,
                slabs@.len() == k,
                forall|j: int|
                    0 <= j < k ==> {
                        &&& (#[trigger] slabs@[j]).wf()
                        &&& slabs@[j].spec_object_size() == config.spec_object_size(j as nat)
                        &&& slabs@[j].spec_page_size() == config.spec_page_size()
                        &&& slabs@[j].pages().len() == 0
                        &&& slabs@[j].free_list().len() == 0
                    },
            decreases n - k,
        {
            proof {
                config.lemma_object_size(k as nat);
            }
            let object_size = config.object_size(k);
            slabs.push(SlabManager::new(object_size, page_size));
            k = k + 1;
        }
        SlabAllocator { config, slabs, locks_taken: 0 }
    }

    /// How often a lock of the set was taken.
    pub fn locks_taken(&self) -> (r: usize)
        ensures
            r == self.spec_locks_taken(),
    {
        self.locks_taken
    }

    /// Number of slab pages of a size class.
    pub fn num_pages(&self, k: usize) -> (r: usize)
        requires
            k < self.slabs().len(),
        ensures
            r == self.slabs()[k as int].pages().len(),
    {
        self.slabs[k].num_pages()
    }

    /// Where the `i`-th slab page of a size class starts.
    pub fn page(&self, k: usize, i: usize) -> (r: usize)
        requires
            k < self.slabs().len(),
            i < self.slabs()[k as int].pages().len(),
        ensures
            r == self.slabs()[k as int].pages()[i as int],
    {
        self.slabs[k].page(i)
    }

    /// Number of free objects of a size class.
    pub fn free_count(&self, k: usize) -> (r: usize)
        requires
            k < self.slabs().len(),
            self.slabs()[k as int].wf(),
        ensures
            r == self.slabs()[k as int].free_list().len(),
    {
        self.slabs[k].free_count()
    }

    /// Whether the free list of a size class is empty.
    pub fn is_exhausted(&self, k: usize) -> (r: bool)
        requires
            k < self.slabs().len(),
            self.slabs()[k as int].wf(),
        ensures
            r == (self.slabs()[k as int].free_list().len() == 0),
    {
        self.slabs[k].is_exhausted()
    }

    /// Takes the lock of a layout's size class and hands out its allocator;
    /// `None`, and no lock taken, where the layout has no class.
    pub fn allocator_for_layout(&mut self, layout: Layout) -> (r: Option<&mut SlabManager>)
        requires
            old(self).wf(),
        ensures
            final(self).spec_config() == old(self).spec_config(),
            r.is_some() <==> old(self).spec_config().class_of(layout).is_some(),
            r.is_none() ==> final(self).slabs() == old(self).slabs(),
            r.is_none() ==> final(self).spec_locks_taken() == old(self).spec_locks_taken(),
            r matches Some(slab) ==> {
                let k = old(self).spec_config().class_of(layout).unwrap() as int;
                &&& *slab == old(self).slabs()[k]
                &&& final(self).slabs() == old(self).slabs().update(k, *final(slab))
                &&& final(self).spec_locks_taken() == Self::count_up(old(self).spec_locks_taken())
            },
    {
        match self.config.classify(layout) {
            Some(k) => {
                proof {
                    self.config.lemma_class_of(layout);
                }
                if self.locks_taken < usize::MAX {
                    self.locks_taken = self.locks_taken + 1;
                }
                Some(&mut self.slabs[k])
            },
            None => None,
        }
    }
}

} // verus!
