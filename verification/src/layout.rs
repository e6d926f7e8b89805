//! Allocation layouts and their size class.

use crate::params::{
    ceil_log2, ceil_log2_usize, lemma_ceil_log2_bounds, lemma_pow2_monotonic, HeapConfig,
};
use vstd::arithmetic::power2::{lemma2_to64, lemma_pow2_unfold, pow2};
use crate::align::is_aligned;
use vstd::prelude::*;

verus! {

/// Whether `n` is a power of two.
pub open spec fn is_power_of_two(n: nat) -> bool {
    n >= 1 && pow2(ceil_log2(n)) == n
}

/// Decides whether `n` is a power of two.
pub fn is_power_of_two_usize(n: usize) -> (r: bool)
    ensures
        r == is_power_of_two(n as nat),
{
    if n == 0 {
        return false;
    }
    let mut p: usize = 1;
    let ghost mut e: nat = 0;
    proof {
        lemma2_to64();
    }
    while p < n
        invariant
            n >= 1,
            p == pow2(e),
            p >= 1,
            e > 0 ==> pow2((e - 1) as nat) < n,
            e < usize::BITS,
        decreases usize::BITS - e,
    {
        if p > usize::MAX / 2 {
            proof {
                lemma_pow2_unfold(e + 1);
                crate::params::lemma_ceil_log2_unique(n as nat, e + 1);
            }
            return false;
        }
        proof {
            lemma_pow2_unfold(e + 1);
            lemma2_to64();
            vstd::arithmetic::power2::lemma2_to64_rest();
            if usize::BITS == 32 && e >= 31 {
                lemma_pow2_monotonic(31, e);
            }
            if usize::BITS == 64 && e >= 63 {
                lemma_pow2_monotonic(63, e);
            }
            e = e + 1;
        }
        p = p * 2;
    }
    proof {
        crate::params::lemma_ceil_log2_unique(n as nat, e);
    }
    p == n
}

/// The size and the alignment of one requested allocation.
#[derive(Clone, Copy, Debug)]
pub struct Layout {
    size: usize,
    align: usize,
}

/// Whether a size and an alignment make a layout: the alignment is a power
/// of two and the size, rounded up to it, fits in `isize`.
pub open spec fn layout_valid(size: usize, align: usize) -> bool {
    &&& is_power_of_two(align as nat)
    &&& size + align - 1 <= isize::MAX
}

impl Layout {
    /// Bytes requested.
    pub closed spec fn spec_size(self) -> nat {
        self.size as nat
    }

    /// Alignment requested.
    pub closed spec fn spec_align(self) -> nat {
        self.align as nat
    }

    /// The invariant every layout satisfies.
    pub open spec fn wf(self) -> bool {
        &&& is_power_of_two(self.spec_align())
        &&& self.spec_size() + self.spec_align() - 1 <= isize::MAX
    }

    /// The larger of size and alignment, and 1 where both are 0.
    pub open spec fn spec_extent(self) -> nat {
        let n = if self.spec_size() >= self.spec_align() {
            self.spec_size()
        } else {
            self.spec_align()
        };
        if n == 0 {
            1
        } else {
            n
        }
    }

    /// Builds a layout, or `None` where size and alignment do not make one.
    pub fn from_size_align(size: usize, align: usize) -> (r: Option<Layout>)
        ensures
            r.is_some() <==> layout_valid(size, align),
            r matches Some(l) ==> l.wf() && l.spec_size() == size && l.spec_align() == align,
    {
        if !is_power_of_two_usize(align) {
            return None;
        }
        let limit = isize::MAX as usize;
        if align - 1 > limit || size > limit - (align - 1) {
            return None;
        }
        Some(Layout { size, align })
    }

    /// Bytes requested.
    pub fn size(&self) -> (r: usize)
        ensures
            r == self.spec_size(),
    {
        self.size
    }

    /// Alignment requested.
    pub fn align(&self) -> (r: usize)
        ensures
            r == self.spec_align(),
    {
        self.align
    }

    /// The larger of size and alignment, and 1 where both are 0.
    pub fn extent(&self) -> (r: usize)
        ensures
            r == self.spec_extent(),
    {
        let n = if self.size >= self.align {
            self.size
        } else {
            self.align
        };
        if n == 0 {
            1
        } else {
            n
        }
    }
}

impl HeapConfig {
    /// The size class of a layout: the least class whose objects are at
    /// least as large as the layout's size and alignment, or `None` where
    /// the largest class is too small.
    pub open spec fn class_of(self, layout: Layout) -> Option<nat> {
        let c = ceil_log2(layout.spec_extent());
        let k = if c <= self.spec_min_shift() {
            0
        } else {
            (c - self.spec_min_shift()) as nat
        };
        if k > self.spec_max_class() {
            None
        } else {
            Some(k)
        }
    }

    /// A layout has a class exactly when the largest object covers it, and
    /// then its class is the least whose objects cover it.
    pub proof fn lemma_class_of(self, layout: Layout)
        requires
            self.wf(),
        ensures
            self.class_of(layout).is_some() <==> layout.spec_extent() <= pow2(
                self.spec_max_shift(),
            ),
            self.class_of(layout) matches Some(k) ==> {
                &&& k < self.spec_num_classes()
                &&& self.spec_object_size(k) >= layout.spec_size()
                &&& self.spec_object_size(k) >= layout.spec_align()
                &&& k > 0 ==> self.spec_object_size((k - 1) as nat) < layout.spec_extent()
            },
    {
        self.lemma_wf();
        let n = layout.spec_extent();
        let c = ceil_log2(n);
        lemma_ceil_log2_bounds(n);
        if c <= self.spec_max_shift() {
            lemma_pow2_monotonic(c, self.spec_max_shift());
        } else {
            lemma_pow2_monotonic(self.spec_max_shift(), (c - 1) as nat);
        }
        if c <= self.spec_min_shift() {
            lemma_pow2_monotonic(c, self.spec_min_shift());
        }
    }

    /// An object of a layout's class is aligned as the layout asks wherever
    /// it is aligned to its own size.
    pub proof fn lemma_class_alignment(self, layout: Layout, k: nat, p: int)
        requires
            self.wf(),
            layout.wf(),
            self.class_of(layout) == Some(k),
            is_aligned(p, self.spec_object_size(k) as int),
        ensures
            is_aligned(p, layout.spec_align() as int),
    {
        self.lemma_class_of(layout);
        let a = layout.spec_align();
        let e = ceil_log2(a);
        let s = k + self.spec_min_shift();
        lemma_ceil_log2_bounds(a);
        if s < e {
            vstd::arithmetic::power2::lemma_pow2_strictly_increases(s, e);
        }
        crate::params::lemma_pow2_divides(e, s);
        crate::align::lemma_aligned_transitive(p, pow2(s) as int, a as int);
    }

    /// Classifies a layout: its size class, or `None` for the huge path.
    pub fn classify(&self, layout: Layout) -> (r: Option<usize>)
        requires
            self.wf(),
        ensures
            r.is_some() == self.class_of(layout).is_some(),
            r matches Some(k) ==> self.class_of(layout) == Some(k as nat),
    {
        proof {
            self.lemma_wf();
        }
        let c = ceil_log2_usize(layout.extent());
        let k = if c <= self.min_shift() {
            0
        } else {
            c - self.min_shift()
        };
        if k > self.max_shift() - self.min_shift() {
            None
        } else {
            Some(k as usize)
        }
    }
}

} // verus!
