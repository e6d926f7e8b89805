//! Alignment: what it means for an address to be a multiple of a size, and
//! the arithmetic that follows from it.

use vstd::arithmetic::div_mod::{
    lemma_fundamental_div_mod, lemma_mod_multiples_basic, lemma_mod_self_0, lemma_small_mod,
};
use vstd::prelude::*;

verus! {

/// Whether `a` is a multiple of `d`.
#[verifier::opaque]
pub open spec fn is_aligned(a: int, d: int) -> bool {
    a % d == 0
}

/// Alignment is divisibility.
pub proof fn lemma_aligned_def(a: int, d: int)
    ensures
        is_aligned(a, d) <==> a % d == 0,
{
    reveal(is_aligned);
}

/// An aligned value is its quotient times the alignment.
pub proof fn lemma_aligned_quotient(a: int, d: int)
    requires
        d > 0,
        is_aligned(a, d),
    ensures
        a == d * (a / d),
{
    reveal(is_aligned);
    lemma_fundamental_div_mod(a, d);
}

/// Any multiple of `d` is aligned to `d`.
pub proof fn lemma_aligned_scaled(d: int, m: int)
    requires
        d > 0,
    ensures
        is_aligned(d * m, d),
        is_aligned(m * d, d),
{
    reveal(is_aligned);
    lemma_mod_multiples_basic(m, d);
    assert(m * d == d * m) by (nonlinear_arith);
}

/// Zero and `d` itself are aligned to `d`.
pub proof fn lemma_aligned_zero_self(d: int)
    requires
        d > 0,
    ensures
        is_aligned(0, d),
        is_aligned(d, d),
{
    reveal(is_aligned);
    lemma_mod_self_0(d);
    lemma_small_mod(0, d as nat);
}

/// Two aligned values that differ are at least the alignment apart.
pub proof fn lemma_aligned_apart(a: int, b: int, d: int)
    requires
        d > 0,
        is_aligned(a, d),
        is_aligned(b, d),
        a < b,
    ensures
        a + d <= b,
{
    lemma_aligned_quotient(a, d);
    lemma_aligned_quotient(b, d);
    let x = a / d;
    let y = b / d;
    assert(x < y) by (nonlinear_arith)
        requires
            d > 0,
            d * x < d * y,
    ;
    assert(d * x + d <= d * y) by (nonlinear_arith)
        requires
            d > 0,
            x + 1 <= y,
    ;
}

/// Sums and differences of aligned values are aligned.
pub proof fn lemma_aligned_add(a: int, b: int, d: int)
    requires
        d > 0,
        is_aligned(a, d),
        is_aligned(b, d),
    ensures
        is_aligned(a + b, d),
        is_aligned(a - b, d),
{
    lemma_aligned_quotient(a, d);
    lemma_aligned_quotient(b, d);
    let x = a / d;
    let y = b / d;
    assert(a + b == d * (x + y)) by (nonlinear_arith)
        requires
            a == d * x,
            b == d * y,
    ;
    assert(a - b == d * (x - y)) by (nonlinear_arith)
        requires
            a == d * x,
            b == d * y,
    ;
    lemma_aligned_scaled(d, x + y);
    lemma_aligned_scaled(d, x - y);
}

/// What is aligned to `m` is aligned to whatever `m` is aligned to.
pub proof fn lemma_aligned_transitive(a: int, m: int, d: int)
    requires
        d > 0,
        m > 0,
        is_aligned(a, m),
        is_aligned(m, d),
    ensures
        is_aligned(a, d),
{
    lemma_aligned_quotient(a, m);
    lemma_aligned_quotient(m, d);
    let x = a / m;
    let y = m / d;
    assert(a == d * (y * x)) by (nonlinear_arith)
        requires
            a == m * x,
            m == d * y,
    ;
    lemma_aligned_scaled(d, y * x);
}

/// An aligned size holds a whole number of units, at least one where it is
/// no smaller than the unit.
pub proof fn lemma_aligned_count(a: int, d: int)
    requires
        d > 0,
        is_aligned(a, d),
        a >= d,
    ensures
        a / d >= 1,
        a == d * (a / d),
{
    lemma_aligned_quotient(a, d);
    let n = a / d;
    assert(n >= 1) by (nonlinear_arith)
        requires
            a == d * n,
            0 < d <= a,
    ;
}

} // verus!
