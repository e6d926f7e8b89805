//! Tunable parameters of the heap and the power-of-two arithmetic they need.

use vstd::arithmetic::power2::{lemma2_to64, lemma_pow2_strictly_increases, lemma_pow2_unfold, pow2};
use crate::align::{is_aligned, lemma_aligned_scaled};
use vstd::prelude::*;

verus! {

/// Number of pointers one magazine holds.
pub const MAGAZINE_CAPACITY: usize = 32;

/// Log2 of the size of a pointer on the 64-bit target.
pub const POINTER_SHIFT: u32 = 3;

/// Largest page shift a configuration may name.
pub const MAX_PAGE_SHIFT: u32 = 30;

/// Bytes one magazine occupies: its count and its pointer slots.
pub const MAGAZINE_BYTES: usize = 264;

/// The least `r` with `2^r >= n`; 0 for `n <= 1`.
pub open spec fn ceil_log2(n: nat) -> nat
    decreases n,
{
    if n <= 1 {
        0
    } else {
        1 + ceil_log2((n + 1) / 2)
    }
}

/// `ceil_log2(n)` is an exponent whose power of two covers `n`, and the
/// exponent below it does not.
pub proof fn lemma_ceil_log2_bounds(n: nat)
    requires
        n >= 1,
    ensures
        pow2(ceil_log2(n)) >= n,
        ceil_log2(n) > 0 ==> pow2((ceil_log2(n) - 1) as nat) < n,
    decreases n,
{
    lemma2_to64();
    if n > 1 {
        let h = (n + 1) / 2;
        lemma_ceil_log2_bounds(h);
        lemma_pow2_unfold(ceil_log2(n));
        if ceil_log2(h) > 0 {
            lemma_pow2_unfold(ceil_log2(h));
        }
    }
}

/// Powers of two are ordered as their exponents are.
pub proof fn lemma_pow2_monotonic(a: nat, b: nat)
    requires
        a <= b,
    ensures
        pow2(a) <= pow2(b),
{
    if a < b {
        lemma_pow2_strictly_increases(a, b);
    }
}

/// Only one exponent covers `n` while the one below it does not.
pub proof fn lemma_ceil_log2_unique(n: nat, r: nat)
    requires
        n >= 1,
        pow2(r) >= n,
        r > 0 ==> pow2((r - 1) as nat) < n,
    ensures
        r == ceil_log2(n),
{
    lemma_ceil_log2_bounds(n);
    let c = ceil_log2(n);
    if r < c {
        lemma_pow2_monotonic(r, (c - 1) as nat);
    } else if c < r {
        lemma_pow2_monotonic(c, (r - 1) as nat);
    }
}

/// A power of two divides every larger power of two.
pub proof fn lemma_pow2_divides(a: nat, b: nat)
    requires
        a <= b,
    ensures
        is_aligned(pow2(b) as int, pow2(a) as int),
        pow2(a) > 0,
{
    vstd::arithmetic::power2::lemma_pow2_pos(a);
    vstd::arithmetic::power2::lemma_pow2_adds(a, (b - a) as nat);
    lemma_aligned_scaled(pow2(a) as int, pow2((b - a) as nat) as int);
}

/// Computes `2^e`.
pub fn pow2_usize(e: u32) -> (r: usize)
    requires
        e <= MAX_PAGE_SHIFT,
    ensures
        r == pow2(e as nat),
        0 < r <= 0x4000_0000,
{
    let mut r: usize = 1;
    let mut i: u32 = 0;
    proof {
        lemma2_to64();
    }
    while i < e
        invariant
            i <= e <= MAX_PAGE_SHIFT,
            r == pow2(i as nat),
            pow2(30) == 0x4000_0000,
        decreases e - i,
    {
        proof {
            lemma_pow2_unfold((i + 1) as nat);
            lemma_pow2_monotonic((i + 1) as nat, 30);
        }
        r = r * 2;
        i = i + 1;
    }
    proof {
        lemma_pow2_monotonic(e as nat, 30);
        vstd::arithmetic::power2::lemma_pow2_pos(e as nat);
    }
    r
}

/// Computes the least exponent whose power of two is at least `n`.
pub fn ceil_log2_usize(n: usize) -> (r: u32)
    ensures
        r == ceil_log2(n as nat),
        r <= usize::BITS,
{
    if n <= 1 {
        return 0;
    }
    let mut r: u32 = 0;
    let mut p: usize = 1;
    proof {
        lemma2_to64();
    }
    while p < n
        invariant
            n > 1,
            p == pow2(r as nat),
            p >= 1,
            r > 0 ==> pow2((r - 1) as nat) < n,
            r < usize::BITS,
        decreases usize::BITS - r,
    {
        if p > usize::MAX / 2 {
            proof {
                lemma_pow2_unfold((r + 1) as nat);
                lemma_ceil_log2_unique(n as nat, (r + 1) as nat);
            }
            return r + 1;
        }
        proof {
            lemma_pow2_unfold((r + 1) as nat);
            lemma2_to64();
            vstd::arithmetic::power2::lemma2_to64_rest();
            if usize::BITS == 32 && r >= 31 {
                lemma_pow2_monotonic(31, r as nat);
            }
            if usize::BITS == 64 && r >= 63 {
                lemma_pow2_monotonic(63, r as nat);
            }
        }
        p = p * 2;
        r = r + 1;
    }
    proof {
        lemma_ceil_log2_unique(n as nat, r as nat);
    }
    r
}

/// The three shifts that shape a heap: the smallest and the largest object
/// size and the page size, each as a power of two.
#[derive(Clone, Copy, Debug)]
pub struct HeapConfig {
    min_shift: u32,
    max_shift: u32,
    page_shift: u32,
    page_size: usize,
}

/// Whether three shifts may shape a heap: the smallest object holds a
/// pointer, the largest is at most half a page, and one magazine per class
/// fits in a page.
pub open spec fn shifts_valid(min_shift: u32, max_shift: u32, page_shift: u32) -> bool {
    &&& POINTER_SHIFT <= min_shift
    &&& min_shift <= max_shift
    &&& max_shift < page_shift
    &&& page_shift <= MAX_PAGE_SHIFT
    &&& (max_shift - min_shift + 1) * MAGAZINE_BYTES <= pow2(page_shift as nat)
}

impl HeapConfig {
    /// The invariant every configuration satisfies.
    pub closed spec fn wf(self) -> bool {
        &&& shifts_valid(self.min_shift, self.max_shift, self.page_shift)
        &&& self.page_size == pow2(self.page_shift as nat)
    }

    pub closed spec fn spec_min_shift(self) -> nat {
        self.min_shift as nat
    }

    pub closed spec fn spec_max_shift(self) -> nat {
        self.max_shift as nat
    }

    pub closed spec fn spec_page_shift(self) -> nat {
        self.page_shift as nat
    }

    /// Bytes in a page.
    pub open spec fn spec_page_size(self) -> nat {
        pow2(self.spec_page_shift())
    }

    /// Index of the largest size class.
    pub open spec fn spec_max_class(self) -> nat {
        (self.spec_max_shift() - self.spec_min_shift()) as nat
    }

    /// Number of size classes.
    pub open spec fn spec_num_classes(self) -> nat {
        self.spec_max_class() + 1
    }

    /// Bytes in an object of class `k`.
    pub open spec fn spec_object_size(self, k: nat) -> nat {
        pow2(k + self.spec_min_shift())
    }

    /// What a well-formed configuration's shifts satisfy.
    pub proof fn lemma_wf(self)
        requires
            self.wf(),
        ensures
            POINTER_SHIFT <= self.spec_min_shift() <= self.spec_max_shift(),
            self.spec_max_shift() < self.spec_page_shift() <= MAX_PAGE_SHIFT,
            self.spec_num_classes() * MAGAZINE_BYTES <= self.spec_page_size(),
            0 < self.spec_page_size() <= 0x4000_0000,
    {
        lemma2_to64();
        lemma_pow2_monotonic(self.page_shift as nat, 30);
        vstd::arithmetic::power2::lemma_pow2_pos(self.page_shift as nat);
    }

    /// Every class's object size is a power of two between a pointer and half
    /// a page, and divides the page size.
    pub proof fn lemma_object_size(self, k: nat)
        requires
            self.wf(),
            k < self.spec_num_classes(),
        ensures
            8 <= self.spec_object_size(k),
            2 * self.spec_object_size(k) <= self.spec_page_size(),
            is_aligned(self.spec_page_size() as int, self.spec_object_size(k) as int),
    {
        lemma2_to64();
        let e = k + self.spec_min_shift();
        lemma_pow2_monotonic(3, e);
        lemma_pow2_monotonic(e + 1, self.spec_page_shift());
        lemma_pow2_unfold(e + 1);
        lemma_pow2_divides(e, self.spec_page_shift());
    }

    /// Builds a configuration, or `None` where the shifts are not valid.
    pub fn new(min_shift: u32, max_shift: u32, page_shift: u32) -> (r: Option<HeapConfig>)
        ensures
            r.is_some() <==> shifts_valid(min_shift, max_shift, page_shift),
            r matches Some(c) ==> {
                &&& c.wf()
                &&& c.spec_min_shift() == min_shift
                &&& c.spec_max_shift() == max_shift
                &&& c.spec_page_shift() == page_shift
            },
    {
        if min_shift < POINTER_SHIFT || max_shift < min_shift || page_shift <= max_shift
            || page_shift > MAX_PAGE_SHIFT {
            return None;
        }
        let page_size = pow2_usize(page_shift);
        let classes: usize = (max_shift - min_shift + 1) as usize;
        if classes * MAGAZINE_BYTES > page_size {
            return None;
        }
        Some(HeapConfig { min_shift, max_shift, page_shift, page_size })
    }

    /// Log2 of the smallest object size.
    pub fn min_shift(&self) -> (r: u32)
        ensures
            r == self.spec_min_shift(),
    {
        self.min_shift
    }

    /// Log2 of the largest object size.
    pub fn max_shift(&self) -> (r: u32)
        ensures
            r == self.spec_max_shift(),
    {
        self.max_shift
    }

    /// Log2 of the page size.
    pub fn page_shift(&self) -> (r: u32)
        ensures
            r == self.spec_page_shift(),
    {
        self.page_shift
    }

    /// Bytes in a page.
    pub fn page_size(&self) -> (r: usize)
        requires
            self.wf(),
        ensures
            r == self.spec_page_size(),
    {
        self.page_size
    }

    /// Number of size classes.
    pub fn num_classes(&self) -> (r: usize)
        requires
            self.wf(),
        ensures
            r == self.spec_num_classes(),
    {
        (self.max_shift - self.min_shift + 1) as usize
    }

    /// Bytes in an object of class `k`.
    pub fn object_size(&self, k: usize) -> (r: usize)
        requires
            self.wf(),
            k < self.spec_num_classes(),
        ensures
            r == self.spec_object_size(k as nat),
    {
        pow2_usize(k as u32 + self.min_shift)
    }
}

} // verus!
