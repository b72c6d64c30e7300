//! Integer square root and rounded division.
//!
//! Normalization and the cosine kernel need a square root and a
//! round-to-nearest division; both are done exactly on integers here.

use vstd::prelude::*;
use vstd::arithmetic::div_mod::{lemma_div_is_ordered, lemma_div_multiples_vanish_fancy};

verus! {

/// `2^126`, the ceiling on integer-square-root arguments.
pub const ISQRT_ARG_MAX: u128 = 0x4000_0000_0000_0000_0000_0000_0000_0000;

/// The integer square root: the unique `r >= 0` with
/// `r * r <= n < (r + 1) * (r + 1)`.
pub open spec fn spec_isqrt(n: int) -> int {
    choose|r: int| 0 <= r && #[trigger] (r * r) <= n && n < (r + 1) * (r + 1)
}

/// Division by `b`, rounded to the nearest integer, halves away from zero.
pub open spec fn spec_rounded_div(a: int, b: int) -> int {
    if a >= 0 {
        (a + b / 2) / b
    } else {
        -(((-a) + b / 2) / b)
    }
}

/// Clamp `c` into `[lo, hi]`.
pub open spec fn spec_clamp(c: int, lo: int, hi: int) -> int {
    if c < lo {
        lo
    } else if c > hi {
        hi
    } else {
        c
    }
}

/// Two integer square roots of the same number are the same number.
pub proof fn lemma_isqrt_unique(n: int, r1: int, r2: int)
    requires
        0 <= r1,
        r1 * r1 <= n < (r1 + 1) * (r1 + 1),
        0 <= r2,
        r2 * r2 <= n < (r2 + 1) * (r2 + 1),
    ensures
        r1 == r2,
{
    assert(r1 == r2) by (nonlinear_arith)
        requires
            0 <= r1,
            r1 * r1 <= n < (r1 + 1) * (r1 + 1),
            0 <= r2,
            r2 * r2 <= n < (r2 + 1) * (r2 + 1),
    ;
}

/// A witness pins down `spec_isqrt`.
pub proof fn lemma_isqrt_is(n: int, r: int)
    requires
        0 <= r,
        r * r <= n < (r + 1) * (r + 1),
    ensures
        spec_isqrt(n) == r,
{
    assert(exists|q: int| 0 <= q && #[trigger] (q * q) <= n && n < (q + 1) * (q + 1)) by {
        assert(0 <= r && #[trigger] (r * r) <= n && n < (r + 1) * (r + 1));
    }
    let q = spec_isqrt(n);
    lemma_isqrt_unique(n, q, r);
}

/// Integer square root by binary search.
pub fn isqrt(n: u128) -> (r: u64)
    requires
        n < ISQRT_ARG_MAX,
    ensures
        (r as int) * (r as int) <= n < (r as int + 1) * (r as int + 1),
        r == spec_isqrt(n as int),
{
    let mut lo: u64 = 0;
    let mut hi: u64 = 0x7fff_ffff_ffff_ffff;
    proof {
        assert((hi as int + 1) * (hi as int + 1) > n as int) by (nonlinear_arith)
            requires
                n < ISQRT_ARG_MAX,
                hi == 0x7fff_ffff_ffff_ffffu64,
        ;
    }
    while lo < hi
        invariant
            lo <= hi <= 0x7fff_ffff_ffff_ffff,
            (lo as int) * (lo as int) <= n as int,
            (n as int) < (hi as int + 1) * (hi as int + 1),
        decreases hi - lo,
    {
        let mid: u64 = lo + (hi - lo + 1) / 2;
        proof {
            assert((mid as int) * (mid as int) < ISQRT_ARG_MAX) by (nonlinear_arith)
                requires
                    mid <= 0x7fff_ffff_ffff_ffffu64,
            ;
        }
        if (mid as u128) * (mid as u128) <= n {
            lo = mid;
        } else {
            hi = mid - 1;
        }
    }
    proof {
        lemma_isqrt_is(n as int, lo as int);
    }
    lo
}

/// `(a + b / 2) / b` for nonnegative magnitudes: the rounded quotient.
pub fn rounded_div_mag(a: u128, b: u128) -> (r: u128)
    requires
        0 < b,
        a <= 0x4000_0000_0000_0000_0000_0000_0000_0000u128,
        b < 0x1_0000_0000_0000_0000_0000_0000_0000u128,
    ensures
        r == (a as int + (b as int) / 2) / (b as int),
{
    (a + b / 2) / b
}

/// The rounded quotient never exceeds `hi` when the numerator stays under
/// `b * hi`.
pub proof fn lemma_rounded_div_le(a: int, b: int, hi: int)
    requires
        0 < b,
        0 <= a <= b * hi,
        0 <= hi,
    ensures
        (a + b / 2) / b <= hi,
{
    lemma_div_is_ordered(a + b / 2, b * hi + b / 2, b);
    lemma_div_multiples_vanish_fancy(hi, b / 2, b);
    assert(b * hi + b / 2 == (b * hi + b / 2));
}

} // verus!
