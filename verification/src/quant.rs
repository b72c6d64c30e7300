//! Normalization and quantization.
//!
//! A raw vector (fixed point, `2^-16` units) is projected onto the unit
//! sphere (fixed point, `2^-30` units), then mapped to one byte per
//! component: database vectors to `u8` over `[0, 255]`, query vectors to
//! `i8` over `[-127, 127]`. The asymmetric pair feeds the unsigned-times-
//! signed coarse distance kernel.

use vstd::prelude::*;
use vstd::arithmetic::div_mod::{lemma_div_is_ordered, lemma_div_multiples_vanish_fancy};
use crate::distance::MAX_DIM;
use crate::math::{
    isqrt, lemma_rounded_div_le, rounded_div_mag, spec_clamp, spec_isqrt, spec_rounded_div,
};
use crate::{RAW_COMP_MAX, UNIT_SCALE};

verus! {

/// Stateless quantization operations.
pub struct Quantizer;

/// Sum of squared components, as an unbounded integer.
pub open spec fn spec_norm_sq(v: Seq<i64>) -> int
    decreases v.len(),
{
    if v.len() == 0 {
        0
    } else {
        spec_norm_sq(v.drop_last()) + v.last() * v.last()
    }
}

/// Component `i` of the normalized form of `v`: the component divided by
/// the vector's Euclidean norm, rounded, in `2^-30` units. A vector of
/// norm zero (only the zero vector) is left unchanged.
pub open spec fn spec_norm_comp(v: Seq<i64>, i: int) -> int {
    let s = spec_isqrt(spec_norm_sq(v));
    if s == 0 {
        0
    } else {
        spec_rounded_div(v[i] * (UNIT_SCALE as int), s)
    }
}

/// A normalized component, clamped and mapped affinely from `[-1, 1]` onto
/// `[0, 255]`, rounding to nearest with halves up.
pub open spec fn spec_quantize_u8_comp(c: int) -> int {
    (spec_clamp(c, -(UNIT_SCALE as int), UNIT_SCALE as int) * 255 + 256 * (UNIT_SCALE as int)) / (2
        * (UNIT_SCALE as int))
}

/// A normalized component, clamped and scaled from `[-1, 1]` onto
/// `[-127, 127]`, rounding to nearest with halves away from zero.
pub open spec fn spec_quantize_query_comp(c: int) -> int {
    spec_rounded_div(spec_clamp(c, -(UNIT_SCALE as int), UNIT_SCALE as int) * 127, UNIT_SCALE as int)
}

pub(crate) proof fn lemma_norm_sq_take_step(v: Seq<i64>, i: int)
    requires
        0 <= i < v.len(),
    ensures
        spec_norm_sq(v.take(i + 1)) == spec_norm_sq(v.take(i)) + v[i] * v[i],
{
    assert(v.take(i + 1).drop_last() =~= v.take(i));
    assert(v.take(i + 1).last() == v[i]);
}

/// Every squared component is at most the whole sum of squares.
proof fn lemma_norm_sq_term(v: Seq<i64>, i: int)
    requires
        0 <= i < v.len(),
    ensures
        v[i] * v[i] <= spec_norm_sq(v),
        spec_norm_sq(v) >= 0,
    decreases v.len(),
{
    lemma_norm_sq_nonneg(v);
    if i == v.len() - 1 {
        lemma_norm_sq_nonneg(v.drop_last());
        assert(v.last() * v.last() >= 0) by (nonlinear_arith);
    } else {
        lemma_norm_sq_term(v.drop_last(), i);
        assert(v.drop_last()[i] == v[i]);
        assert(v.last() * v.last() >= 0) by (nonlinear_arith);
    }
}

proof fn lemma_norm_sq_nonneg(v: Seq<i64>)
    ensures
        spec_norm_sq(v) >= 0,
    decreases v.len(),
{
    if v.len() > 0 {
        lemma_norm_sq_nonneg(v.drop_last());
        assert(v.last() * v.last() >= 0) by (nonlinear_arith);
    }
}

/// Sum of squared components, exactly.
fn norm_sq(v: &Vec<i64>) -> (r: u128)
    requires
        v@.len() <= MAX_DIM,
        forall|i: int| 0 <= i < v@.len() ==> -RAW_COMP_MAX <= #[trigger] v@[i] <= RAW_COMP_MAX,
    ensures
        r == spec_norm_sq(v@),
        r <= 0x1_0000_0000_0000_0000_0000_0000u128,
{
    let n = v.len();
    let mut acc: u128 = 0;
    let mut i: usize = 0;
    while i < n
        invariant
            n == v@.len() <= MAX_DIM,
            0 <= i <= n,
            forall|j: int| 0 <= j < n ==> -RAW_COMP_MAX <= #[trigger] v@[j] <= RAW_COMP_MAX,
            acc == spec_norm_sq(v@.take(i as int)),
            acc <= (i as int) * (RAW_COMP_MAX * RAW_COMP_MAX),
        decreases n - i,
    {
        let x: i64 = v[i];
        proof {
            assert(0 <= (x as int) * (x as int) <= RAW_COMP_MAX * RAW_COMP_MAX)
                by (nonlinear_arith)
                requires
                    -RAW_COMP_MAX <= x <= RAW_COMP_MAX,
            ;
            lemma_norm_sq_take_step(v@, i as int);
            assert((i as int + 1) * (RAW_COMP_MAX * RAW_COMP_MAX) <= MAX_DIM * (RAW_COMP_MAX
                * RAW_COMP_MAX)) by (nonlinear_arith)
                requires
                    0 <= i as int,
                    i as int + 1 <= MAX_DIM,
            ;
            assert(acc + (x as int) * (x as int) <= (i as int + 1) * (RAW_COMP_MAX * RAW_COMP_MAX))
                by (nonlinear_arith)
                requires
                    acc <= (i as int) * (RAW_COMP_MAX * RAW_COMP_MAX),
                    0 <= (x as int) * (x as int) <= RAW_COMP_MAX * RAW_COMP_MAX,
            ;
        }
        let sq: i128 = (x as i128) * (x as i128);
        acc = acc + (sq as u128);
        i = i + 1;
    }
    proof {
        assert(v@.take(n as int) =~= v@);
        assert(acc <= MAX_DIM * (RAW_COMP_MAX * RAW_COMP_MAX)) by (nonlinear_arith)
            requires
                acc <= (i as int) * (RAW_COMP_MAX * RAW_COMP_MAX),
                i <= MAX_DIM,
        ;
    }
    acc
}

impl Quantizer {
    /// Project a raw vector onto the unit sphere, componentwise rounded to
    /// `2^-30` units. The zero vector stays zero.
    pub fn l2_normalize(vector: &Vec<i64>) -> (r: Vec<i32>)
        requires
            vector@.len() <= MAX_DIM,
            forall|i: int|
                0 <= i < vector@.len() ==> -RAW_COMP_MAX <= #[trigger] vector@[i] <= RAW_COMP_MAX,
        ensures
            r@.len() == vector@.len(),
            forall|i: int|
                0 <= i < vector@.len() ==> #[trigger] r@[i] == spec_norm_comp(vector@, i),
            forall|i: int| 0 <= i < vector@.len() ==> -UNIT_SCALE <= #[trigger] r@[i] <= UNIT_SCALE,
    {
        let n2 = norm_sq(vector);
        let s = isqrt(n2);
        proof {
            assert(s <= 0x1_0000_0000_0000u64) by (nonlinear_arith)
                requires
                    (s as int) * (s as int) <= n2 as int,
                    n2 <= 0x1_0000_0000_0000_0000_0000_0000u128,
            ;
        }
        let n = vector.len();
        let mut r: Vec<i32> = Vec::new();
        let mut i: usize = 0;
        while i < n
            invariant
                n == vector@.len() <= MAX_DIM,
                0 <= i <= n,
                forall|j: int|
                    0 <= j < n ==> -RAW_COMP_MAX <= #[trigger] vector@[j] <= RAW_COMP_MAX,
                n2 == spec_norm_sq(vector@),
                (s as int) * (s as int) <= n2 as int,
                (n2 as int) < (s as int + 1) * (s as int + 1),
                s == spec_isqrt(n2 as int),
                s <= 0x1_0000_0000_0000u64,
                r@.len() == i,
                forall|j: int| 0 <= j < i ==> #[trigger] r@[j] == spec_norm_comp(vector@, j),
                forall|j: int| 0 <= j < i ==> -UNIT_SCALE <= #[trigger] r@[j] <= UNIT_SCALE,
            decreases n - i,
        {
            let x: i64 = vector[i];
            let w: i32;
            if s == 0 {
                proof {
                    lemma_norm_sq_term(vector@, i as int);
                    assert(n2 as int == 0) by (nonlinear_arith)
                        requires
                            (n2 as int) < (s as int + 1) * (s as int + 1),
                            s == 0u64,
                            n2 >= 0,
                    ;
                    assert(x == 0) by (nonlinear_arith)
                        requires
                            (x as int) * (x as int) <= 0,
                    ;
                }
                w = 0;
                assert(spec_norm_comp(vector@, i as int) == 0);
            } else {
                proof {
                    lemma_norm_sq_term(vector@, i as int);
                    assert(-(s as int) <= x as int <= s as int) by (nonlinear_arith)
                        requires
                            (x as int) * (x as int) <= n2 as int,
                            (n2 as int) < (s as int + 1) * (s as int + 1),
                            0 <= s,
                    ;
                }
                let mag: u128 = if x >= 0 {
                    x as u128
                } else {
                    (-x) as u128
                };
                proof {
                    assert(mag * (UNIT_SCALE as u128) <= (s as u128) * (UNIT_SCALE as u128))
                        by (nonlinear_arith)
                        requires
                            mag <= s as u128,
                            0 < UNIT_SCALE,
                    ;
                    assert((s as u128) * (UNIT_SCALE as u128) < 0x4000_0000_0000_0000_0000_0000_0000_0000u128)
                        by (nonlinear_arith)
                        requires
                            s <= 0x1_0000_0000_0000u64,
                    ;
                }
                let q: u128 = rounded_div_mag(mag * (UNIT_SCALE as u128), s as u128);
                proof {
                    lemma_rounded_div_le(
                        mag as int * UNIT_SCALE,
                        s as int,
                        UNIT_SCALE as int,
                    );
                    assert(mag as int * UNIT_SCALE <= s as int * UNIT_SCALE) by (nonlinear_arith)
                        requires
                            mag <= s as u128,
                            0 < UNIT_SCALE,
                    ;
                }
                if x >= 0 {
                    w = q as i32;
                } else {
                    w = -(q as i32);
                }
                assert(w as int == spec_norm_comp(vector@, i as int));
            }
            r.push(w);
            i = i + 1;
        }
        r
    }

    /// Quantize a normalized vector for the database arena: each component
    /// is clamped to `[-1, 1]` and mapped affinely onto `[0, 255]`.
    pub fn quantize_u8(vector: &Vec<i32>) -> (r: Vec<u8>)
        ensures
            r@.len() == vector@.len(),
            forall|i: int|
                0 <= i < vector@.len() ==> #[trigger] r@[i] == spec_quantize_u8_comp(
                    vector@[i] as int,
                ),
    {
        let n = vector.len();
        let mut r: Vec<u8> = Vec::new();
        let mut i: usize = 0;
        while i < n
            invariant
                n == vector@.len(),
                0 <= i <= n,
                r@.len() == i,
                forall|j: int|
                    0 <= j < i ==> #[trigger] r@[j] == spec_quantize_u8_comp(vector@[j] as int),
            decreases n - i,
        {
            let c: i64 = vector[i] as i64;
            let clamped: i64 = if c < -UNIT_SCALE {
                -UNIT_SCALE
            } else if c > UNIT_SCALE {
                UNIT_SCALE
            } else {
                c
            };
            let scaled: i64 = clamped * 255 + 255 * UNIT_SCALE + UNIT_SCALE;
            let q: i64 = scaled / (2 * UNIT_SCALE);
            proof {
                assert(0 <= scaled as int <= 511 * UNIT_SCALE);
                lemma_div_is_ordered(0, scaled as int, 2 * UNIT_SCALE);
                lemma_div_is_ordered(scaled as int, 511 * UNIT_SCALE, 2 * UNIT_SCALE);
                assert((511 * UNIT_SCALE) / (2 * UNIT_SCALE) == 255) by {
                    lemma_div_multiples_vanish_fancy(255, UNIT_SCALE as int, 2 * UNIT_SCALE);
                    assert((2 * UNIT_SCALE) * 255 + UNIT_SCALE == 511 * UNIT_SCALE);
                }
            }
            r.push(q as u8);
            i = i + 1;
        }
        r
    }

    /// Normalize a raw query vector, then scale each component from
    /// `[-1, 1]` onto `[-127, 127]`, rounding to nearest.
    pub fn quantize_query(vector: &Vec<i64>) -> (r: Vec<i8>)
        requires
            vector@.len() <= MAX_DIM,
            forall|i: int|
                0 <= i < vector@.len() ==> -RAW_COMP_MAX <= #[trigger] vector@[i] <= RAW_COMP_MAX,
        ensures
            r@.len() == vector@.len(),
            forall|i: int|
                0 <= i < vector@.len() ==> #[trigger] r@[i] == spec_quantize_query_comp(
                    spec_norm_comp(vector@, i),
                ),
            forall|i: int| 0 <= i < vector@.len() ==> -127 <= #[trigger] r@[i] <= 127,
    {
        let normalized = Self::l2_normalize(vector);
        let n = normalized.len();
        let mut r: Vec<i8> = Vec::new();
        let mut i: usize = 0;
        while i < n
            invariant
                n == normalized@.len() == vector@.len(),
                0 <= i <= n,
                forall|j: int|
                    0 <= j < n ==> #[trigger] normalized@[j] == spec_norm_comp(vector@, j),
                forall|j: int|
                    0 <= j < n ==> -UNIT_SCALE <= #[trigger] normalized@[j] <= UNIT_SCALE,
                r@.len() == i,
                forall|j: int|
                    0 <= j < i ==> #[trigger] r@[j] == spec_quantize_query_comp(
                        spec_norm_comp(vector@, j),
                    ),
                forall|j: int| 0 <= j < i ==> -127 <= #[trigger] r@[j] <= 127,
            decreases n - i,
        {
            let c: i64 = normalized[i] as i64;
            let mag: u128 = if c >= 0 {
                (c as u128) * 127
            } else {
                ((-c) as u128) * 127
            };
            let q: u128 = rounded_div_mag(mag, UNIT_SCALE as u128);
            proof {
                lemma_rounded_div_le(mag as int, UNIT_SCALE as int, 127);
                assert(spec_clamp(c as int, -(UNIT_SCALE as int), UNIT_SCALE as int) == c as int);
            }
            let signed: i8 = if c >= 0 {
                q as i8
            } else {
                -(q as i8)
            };
            assert(signed as int == spec_quantize_query_comp(spec_norm_comp(vector@, i as int)));
            r.push(signed);
            i = i + 1;
        }
        r
    }
}

/// Quantization has no hidden state: the database byte vector is a function
/// of the normalized vector alone, so equal normalized vectors always
/// quantize to equal bytes.
pub proof fn lemma_quantize_deterministic(a: Seq<i32>, b: Seq<i32>)
    requires
        a == b,
    ensures
        Seq::new(a.len(), |i: int| spec_quantize_u8_comp(a[i] as int)) == Seq::new(
            b.len(),
            |i: int| spec_quantize_u8_comp(b[i] as int),
        ),
{
}

} // verus!
