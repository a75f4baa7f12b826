//! Probability bucketing: mapping a fixed-point probability to a
//! histogram index in `[0, 100]`, at full resolution and at a coarser
//! configurable granularity.

use vstd::prelude::*;

verus! {

/// Histogram index for a probability of `bp` basis points: the nearest
/// integer to `bp / 100` (ties round up), clamped to `[0, 100]`.
pub open spec fn bucket_of(bp: int) -> int {
    let b = (bp + 50) / 100;
    if b > 100 {
        100
    } else {
        b
    }
}

/// Coarse histogram index at granularity `g` (in percent): `bp` is
/// rounded to the nearest multiple of `g` percent (ties round up) and
/// the result is expressed in the same `[0, 100]` index space.
pub open spec fn coarse_bucket_of(bp: int, g: int) -> int {
    ((bp + 50 * g) / (100 * g)) * g
}

/// Full-resolution bucket of a probability, as an index into a
/// 101-cell histogram.
pub fn bucket(bp: u32) -> (b: usize)
    requires
        bp <= crate::PROB_ONE,
    ensures
        b == bucket_of(bp as int),
        b <= 100,
{
    let b = (bp + 50) / 100;
    if b > 100 {
        100
    } else {
        b as usize
    }
}

/// For every probability in range and every granularity that divides
/// 100, the coarse bucket is a multiple of the granularity in
/// `[0, 100]`.
pub proof fn lemma_coarse_bucket_range(bp: int, g: int)
    requires
        0 <= bp <= crate::PROB_ONE,
        1 <= g <= 100,
        100int % g == 0,
    ensures
        0 <= coarse_bucket_of(bp, g) <= 100,
        coarse_bucket_of(bp, g) % g == 0,
{
    let x = bp + 50 * g;
    let d = 100 * g;
    let q = x / d;
    let k = 100int / g;
    vstd::arithmetic::div_mod::lemma_fundamental_div_mod(100int, g);
    assert(g * k == 100);
    assert(x < d * (k + 1)) by (nonlinear_arith)
        requires
            0 <= bp <= 10000,
            1 <= g,
            x == bp + 50 * g,
            d == 100 * g,
            g * k == 100,
    ;
    vstd::arithmetic::div_mod::lemma_multiply_divide_lt(x, d, k + 1);
    assert(q <= k);
    vstd::arithmetic::div_mod::lemma_div_pos_is_pos(x, d);
    assert(0 <= q * g <= 100) by (nonlinear_arith)
        requires
            0 <= q <= k,
            1 <= g,
            g * k == 100,
    ;
    assert(q * g % g == 0) by (nonlinear_arith)
        requires
            1 <= g,
    ;
}

/// Coarse bucket of a probability at granularity `g`.
pub fn coarse_bucket(bp: u32, g: u64) -> (b: usize)
    requires
        bp <= crate::PROB_ONE,
        1 <= g <= 100,
        100int % (g as int) == 0,
    ensures
        b == coarse_bucket_of(bp as int, g as int),
        b <= 100,
{
    proof {
        lemma_coarse_bucket_range(bp as int, g as int);
    }
    let num = (bp as u64) + 50 * g;
    let q = num / (100 * g);
    (q * g) as usize
}

/// For every probability in range the full-resolution bucket lies in
/// `[0, 100]`; probability 0 lands in bucket 0 and probability 1 in
/// bucket 100, and the clamp never changes an in-range result.
pub proof fn lemma_bucket_range(bp: int)
    requires
        0 <= bp <= crate::PROB_ONE,
    ensures
        0 <= bucket_of(bp) <= 100,
        bucket_of(bp) == (bp + 50) / 100,
        bp == 0 ==> bucket_of(bp) == 0,
        bp == crate::PROB_ONE ==> bucket_of(bp) == 100,
{
}

} // verus!
