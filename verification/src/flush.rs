//! Cleaning the data cache over a range of addresses: the stride of the
//! cache and the lines to clean.

use vstd::prelude::*;

verus! {

/// The smallest cache line in bytes, from a value of the cache type
/// register: four times two to the power held in its bits 16 to 19.
pub open spec fn spec_cache_line_stride(ctr: u64) -> u64 {
    ((1u64 << ((ctr >> 16) & 0xf)) * 4) as u64
}

/// The smallest cache line in bytes, from a value of the cache type
/// register.
pub fn cache_line_stride(ctr: u64) -> (r: u64)
    ensures
        r == spec_cache_line_stride(ctr),
        4 <= r <= 0x2_0000,
{
    let shift = (ctr >> 16) & 0xf;
    assert(shift <= 15) by (bit_vector)
        requires
            shift == (ctr >> 16) & 0xf,
    ;
    let lines = 1u64 << shift;
    assert(1 <= lines <= 0x8000) by (bit_vector)
        requires
            lines == 1u64 << shift,
            shift <= 15,
    ;
    lines * 4
}

/// The addresses at which the cache is cleaned to cover `[start, start +
/// size)`: `start` and every `stride` bytes after it below the end.
pub fn flush_lines(start: usize, size: usize, stride: usize) -> (r: Vec<usize>)
    requires
        stride > 0,
        start + size <= usize::MAX,
    ensures
        forall|i: int| 0 <= i < r@.len() ==> r@[i] == start + i * stride,
        forall|i: int| 0 <= i < r@.len() ==> r@[i] < start + size,
        start + r@.len() * stride >= start + size,
{
    let end = start + size;
    let mut lines: Vec<usize> = Vec::new();
    let mut x = start;
    while x < end
        invariant
            stride > 0,
            end == start + size,
            x == start + lines@.len() * stride || (x == end && start + lines@.len() * stride >= end),
            start <= x <= end || lines@.len() == 0,
            x >= start,
            forall|i: int| 0 <= i < lines@.len() ==> lines@[i] == start + i * stride,
            forall|i: int| 0 <= i < lines@.len() ==> lines@[i] < end,
        decreases end - x,
    {
        lines.push(x);
        proof {
            let n = lines@.len() as int;
            assert(n * stride == (n - 1) * stride + stride) by (nonlinear_arith);
        }
        if stride >= end - x {
            x = end;
        } else {
            x = x + stride;
        }
    }
    proof {
        assert(0 * stride == 0) by (nonlinear_arith);
    }
    lines
}

} // verus!
