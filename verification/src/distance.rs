//! Exact distance kernels.
//!
//! The engine compares vectors through two kernels: squared Euclidean
//! distance between fixed-point vectors, and a negated dot product between a
//! signed quantized query and an unsigned quantized database vector. Both
//! are computed exactly in integers, so "smaller is closer" holds with no
//! rounding caveats.

use vstd::prelude::*;

verus! {

/// Largest dimension a vector may have; keeps every squared distance
/// within `u128`.
pub const MAX_DIM: usize = 65536;

/// Largest magnitude a component may have in a squared-distance kernel
/// call (`2^54`).
pub const DIST_COMP_MAX: i64 = 0x40_0000_0000_0000;

/// Sum of squared componentwise differences, as an unbounded integer.
pub open spec fn spec_sq_l2(a: Seq<i64>, b: Seq<i64>) -> int
    decreases a.len(),
{
    if a.len() == 0 {
        0
    } else {
        spec_sq_l2(a.drop_last(), b.drop_last())
            + (a.last() - b.last()) * (a.last() - b.last())
    }
}

/// Dot product of a signed quantized query and an unsigned quantized
/// database vector, as an unbounded integer.
pub open spec fn spec_dot_u8(q: Seq<i8>, v: Seq<u8>) -> int
    decreases q.len(),
{
    if q.len() == 0 {
        0
    } else {
        spec_dot_u8(q.drop_last(), v.drop_last()) + q.last() * v.last()
    }
}

proof fn lemma_sq_l2_step(a: Seq<i64>, b: Seq<i64>, i: int)
    requires
        0 <= i < a.len(),
        i < b.len(),
    ensures
        spec_sq_l2(a.take(i + 1), b.take(i + 1)) == spec_sq_l2(a.take(i), b.take(i)) + (a[i] - b[i])
            * (a[i] - b[i]),
{
    assert(a.take(i + 1).drop_last() =~= a.take(i));
    assert(b.take(i + 1).drop_last() =~= b.take(i));
    assert(a.take(i + 1).last() == a[i]);
    assert(b.take(i + 1).last() == b[i]);
}

proof fn lemma_dot_u8_step(q: Seq<i8>, v: Seq<u8>, i: int)
    requires
        0 <= i < q.len(),
        i < v.len(),
    ensures
        spec_dot_u8(q.take(i + 1), v.take(i + 1)) == spec_dot_u8(q.take(i), v.take(i)) + q[i]
            * v[i],
{
    assert(q.take(i + 1).drop_last() =~= q.take(i));
    assert(v.take(i + 1).drop_last() =~= v.take(i));
    assert(q.take(i + 1).last() == q[i]);
    assert(v.take(i + 1).last() == v[i]);
}

/// The quantized dot product is bounded by the worst component product
/// times the dimension.
pub proof fn lemma_dot_u8_bound(q: Seq<i8>, v: Seq<u8>)
    ensures
        -32640 * q.len() <= spec_dot_u8(q, v) <= 32640 * q.len(),
    decreases q.len(),
{
    if q.len() > 0 {
        lemma_dot_u8_bound(q.drop_last(), v.drop_last());
        assert(-32640 <= (q.last() as int) * (v.last() as int) <= 32640) by (nonlinear_arith)
            requires
                -128 <= q.last() as int <= 127,
                0 <= v.last() as int <= 255,
        ;
    }
}

/// Squared Euclidean distance between two fixed-point vectors, exactly.
pub fn euclidean_distance(a: &[i64], b: &[i64]) -> (r: u128)
    requires
        a@.len() == b@.len(),
        a@.len() <= MAX_DIM,
        forall|i: int| 0 <= i < a@.len() ==> -DIST_COMP_MAX <= #[trigger] a@[i] <= DIST_COMP_MAX,
        forall|i: int| 0 <= i < b@.len() ==> -DIST_COMP_MAX <= #[trigger] b@[i] <= DIST_COMP_MAX,
    ensures
        r == spec_sq_l2(a@, b@),
{
    let n = a.len();
    let mut acc: u128 = 0;
    let mut i: usize = 0;
    while i < n
        invariant
            n == a@.len() == b@.len(),
            n <= MAX_DIM,
            0 <= i <= n,
            forall|j: int| 0 <= j < n ==> -DIST_COMP_MAX <= #[trigger] a@[j] <= DIST_COMP_MAX,
            forall|j: int| 0 <= j < n ==> -DIST_COMP_MAX <= #[trigger] b@[j] <= DIST_COMP_MAX,
            acc == spec_sq_l2(a@.take(i as int), b@.take(i as int)),
            acc <= (i as int) * (4 * DIST_COMP_MAX * DIST_COMP_MAX),
        decreases n - i,
    {
        let diff: i64 = a[i] - b[i];
        proof {
            assert(0 <= (diff as int) * (diff as int) <= 4 * DIST_COMP_MAX * DIST_COMP_MAX)
                by (nonlinear_arith)
                requires
                    -2 * DIST_COMP_MAX <= diff <= 2 * DIST_COMP_MAX,
            ;
            lemma_sq_l2_step(a@, b@, i as int);
            assert((i as int + 1) * (4 * DIST_COMP_MAX * DIST_COMP_MAX) <= MAX_DIM * (4
                * DIST_COMP_MAX * DIST_COMP_MAX)) by (nonlinear_arith)
                requires
                    0 <= i as int,
                    i as int + 1 <= MAX_DIM,
            ;
            assert(acc + (diff as int) * (diff as int) <= (i as int + 1) * (4 * DIST_COMP_MAX
                * DIST_COMP_MAX)) by (nonlinear_arith)
                requires
                    acc <= (i as int) * (4 * DIST_COMP_MAX * DIST_COMP_MAX),
                    0 <= (diff as int) * (diff as int) <= 4 * DIST_COMP_MAX * DIST_COMP_MAX,
            ;
        }
        let sq: i128 = (diff as i128) * (diff as i128);
        acc = acc + (sq as u128);
        i = i + 1;
    }
    proof {
        assert(a@.take(n as int) =~= a@);
        assert(b@.take(n as int) =~= b@);
    }
    acc
}

/// Negated dot product of a quantized query against a quantized database
/// vector; negation makes smaller mean closer, matching the Euclidean
/// kernel's ordering.
pub fn dot_product_u8_scalar(q: &[i8], v: &[u8]) -> (r: i64)
    requires
        q@.len() == v@.len(),
        q@.len() <= MAX_DIM,
    ensures
        r == -spec_dot_u8(q@, v@),
{
    let n = q.len();
    let mut acc: i64 = 0;
    let mut i: usize = 0;
    while i < n
        invariant
            n == q@.len() == v@.len(),
            n <= MAX_DIM,
            0 <= i <= n,
            acc == spec_dot_u8(q@.take(i as int), v@.take(i as int)),
            -(i as int) * 32640 <= acc <= (i as int) * 32640,
        decreases n - i,
    {
        proof {
            assert(-32640 <= (q@[i as int] as int) * (v@[i as int] as int) <= 32640)
                by (nonlinear_arith)
                requires
                    -128 <= q@[i as int] <= 127,
                    0 <= v@[i as int] <= 255,
            ;
            lemma_dot_u8_step(q@, v@, i as int);
            assert((i + 1) * 32640 <= MAX_DIM * 32640) by (nonlinear_arith)
                requires
                    0 <= i,
                    i + 1 <= MAX_DIM,
            ;
        }
        let prod: i32 = (q[i] as i32) * (v[i] as i32);
        acc = acc + (prod as i64);
        i = i + 1;
    }
    proof {
        assert(q@.take(n as int) =~= q@);
        assert(v@.take(n as int) =~= v@);
    }
    -acc
}

/// Dot product of two fixed-point vectors, as an unbounded integer.
pub open spec fn spec_dot_i64(a: Seq<i64>, b: Seq<i64>) -> int
    decreases a.len(),
{
    if a.len() == 0 {
        0
    } else {
        spec_dot_i64(a.drop_last(), b.drop_last()) + a.last() * b.last()
    }
}

proof fn lemma_dot_i64_step(a: Seq<i64>, b: Seq<i64>, i: int)
    requires
        0 <= i < a.len(),
        i < b.len(),
    ensures
        spec_dot_i64(a.take(i + 1), b.take(i + 1)) == spec_dot_i64(a.take(i), b.take(i)) + a[i]
            * b[i],
{
    assert(a.take(i + 1).drop_last() =~= a.take(i));
    assert(b.take(i + 1).drop_last() =~= b.take(i));
    assert(a.take(i + 1).last() == a[i]);
    assert(b.take(i + 1).last() == b[i]);
}

/// The cosine of the angle between two fixed-point vectors, scaled by
/// `2^30` and rounded to the nearest integer: the exact dot product over
/// the product of the integer square roots of the squared norms.
pub open spec fn spec_cosine_scaled(a: Seq<i64>, b: Seq<i64>) -> int {
    crate::math::spec_rounded_div(
        spec_dot_i64(a, b) * 0x4000_0000,
        crate::math::spec_isqrt(crate::quant::spec_norm_sq(a)) * crate::math::spec_isqrt(
            crate::quant::spec_norm_sq(b),
        ),
    )
}

/// Cosine similarity, exactly, in `2^-30` units. Requires two nonzero
/// vectors: a zero norm has no angle.
#[verifier::loop_isolation(false)]
pub fn cosine_similarity(a: &[i64], b: &[i64]) -> (r: i128)
    requires
        a@.len() == b@.len(),
        a@.len() <= MAX_DIM,
        forall|i: int|
            0 <= i < a@.len() ==> -crate::RAW_COMP_MAX <= #[trigger] a@[i] <= crate::RAW_COMP_MAX,
        forall|i: int|
            0 <= i < b@.len() ==> -crate::RAW_COMP_MAX <= #[trigger] b@[i] <= crate::RAW_COMP_MAX,
        crate::quant::spec_norm_sq(a@) > 0,
        crate::quant::spec_norm_sq(b@) > 0,
    ensures
        r == spec_cosine_scaled(a@, b@),
{
    let n = a.len();
    let mut dot: i128 = 0;
    let mut na: u128 = 0;
    let mut nb: u128 = 0;
    let ghost cmax = crate::RAW_COMP_MAX as int;
    let mut i: usize = 0;
    while i < n
        invariant
            i <= n,
            dot == spec_dot_i64(a@.take(i as int), b@.take(i as int)),
            na == crate::quant::spec_norm_sq(a@.take(i as int)),
            nb == crate::quant::spec_norm_sq(b@.take(i as int)),
            -(i as int) * (cmax * cmax) <= dot <= (i as int) * (cmax * cmax),
            na <= (i as int) * (cmax * cmax),
            nb <= (i as int) * (cmax * cmax),
        decreases n - i,
    {
        let x = a[i];
        let y = b[i];
        proof {
            assert(-(cmax * cmax) <= (x as int) * (y as int) <= cmax * cmax) by (nonlinear_arith)
                requires
                    -cmax <= x <= cmax,
                    -cmax <= y <= cmax,
            ;
            assert(0 <= (x as int) * (x as int) <= cmax * cmax) by (nonlinear_arith)
                requires
                    -cmax <= x <= cmax,
            ;
            assert(0 <= (y as int) * (y as int) <= cmax * cmax) by (nonlinear_arith)
                requires
                    -cmax <= y <= cmax,
            ;
            lemma_dot_i64_step(a@, b@, i as int);
            crate::quant::lemma_norm_sq_take_step(a@, i as int);
            crate::quant::lemma_norm_sq_take_step(b@, i as int);
            assert((i as int + 1) * (cmax * cmax) <= MAX_DIM * (cmax * cmax)) by (nonlinear_arith)
                requires
                    0 <= i as int,
                    i as int + 1 <= MAX_DIM,
            ;
            assert(dot + (x as int) * (y as int) <= (i as int + 1) * (cmax * cmax)
                && -(i as int + 1) * (cmax * cmax) <= dot + (x as int) * (y as int))
                by (nonlinear_arith)
                requires
                    -(i as int) * (cmax * cmax) <= dot <= (i as int) * (cmax * cmax),
                    -(cmax * cmax) <= (x as int) * (y as int) <= cmax * cmax,
            ;
            assert(na + (x as int) * (x as int) <= (i as int + 1) * (cmax * cmax))
                by (nonlinear_arith)
                requires
                    na <= (i as int) * (cmax * cmax),
                    0 <= (x as int) * (x as int) <= cmax * cmax,
            ;
            assert(nb + (y as int) * (y as int) <= (i as int + 1) * (cmax * cmax))
                by (nonlinear_arith)
                requires
                    nb <= (i as int) * (cmax * cmax),
                    0 <= (y as int) * (y as int) <= cmax * cmax,
            ;
        }
        dot = dot + (x as i128) * (y as i128);
        na = na + ((x as i128) * (x as i128)) as u128;
        nb = nb + ((y as i128) * (y as i128)) as u128;
        i = i + 1;
    }
    proof {
        assert(a@.take(n as int) =~= a@);
        assert(b@.take(n as int) =~= b@);
    }
    let sa = crate::math::isqrt(na);
    let sb = crate::math::isqrt(nb);
    proof {
        assert(sa >= 1) by (nonlinear_arith)
            requires
                (sa as int + 1) * (sa as int + 1) > na as int,
                na >= 1,
        ;
        assert(sb >= 1) by (nonlinear_arith)
            requires
                (sb as int + 1) * (sb as int + 1) > nb as int,
                nb >= 1,
        ;
        assert(sa as int <= 0x1_0000_0000_0000 && sb as int <= 0x1_0000_0000_0000)
            by (nonlinear_arith)
            requires
                (sa as int) * (sa as int) <= na as int,
                (sb as int) * (sb as int) <= nb as int,
                na <= 0x1_0000_0000_0000_0000_0000_0000u128,
                nb <= 0x1_0000_0000_0000_0000_0000_0000u128,
        ;
        assert(1 <= (sa as int) * (sb as int) < 0x1_0000_0000_0000_0000_0000_0000_0000int)
            by (nonlinear_arith)
            requires
                1 <= sa as int <= 0x1_0000_0000_0000,
                1 <= sb as int <= 0x1_0000_0000_0000,
        ;
        assert(na <= MAX_DIM * ((crate::RAW_COMP_MAX as int) * (crate::RAW_COMP_MAX as int))
            ==> na <= 0x1_0000_0000_0000_0000_0000_0000u128) by (nonlinear_arith);
        assert(-0x1_0000_0000_0000_0000_0000_0000i128 <= dot
            <= 0x1_0000_0000_0000_0000_0000_0000i128) by (nonlinear_arith)
            requires
                -(n as int) * (cmax * cmax) <= dot <= (n as int) * (cmax * cmax),
                n <= MAX_DIM,
                cmax == 0x100_0000_0000int,
        ;
    }
    let mag: u128 = if dot >= 0 {
        dot as u128
    } else {
        (-dot) as u128
    };
    let q = crate::math::rounded_div_mag(mag * 0x4000_0000, (sa as u128) * (sb as u128));
    if dot >= 0 {
        q as i128
    } else {
        -(q as i128)
    }
}

} // verus!
