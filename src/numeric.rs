//! Exact integer arithmetic behind split scores, leaf weights and gains.
use vstd::prelude::*;

verus! {

/// Largest number of documents a tree can be built over. Together with
/// `MAX_GRAD` it keeps every score, cross-multiplied comparison and gain
/// within 128-bit integers, so that the split search is exact. It is a
/// machine limit of this exact fixed-point model, small for large datasets.
pub const MAX_DOCS: u64 = 65536;

/// Largest magnitude of a single fixed-point gradient (see `MAX_DOCS`).
pub const MAX_GRAD: i64 = 65536;

/// Largest magnitude of a sum of gradients over at most `MAX_DOCS` documents.
pub const MAX_SUM: i64 = 0x1_0000_0000;

/// Bound on the gain of a single split.
pub const MAX_GAIN: u128 = 0x4_0000_0000_0000_0000_0000_0000;

/// Bound on the numerator of a split score.
pub const MAX_SCORE_NUM: u128 = 0x400_0000_0000_0000_0000_0000;

/// Relies on num::pow: raising to the exponent 2 multiplies the base by itself.
#[verifier::external_body]
fn square(x: i128) -> (r: i128)
    requires
        -0x4000_0000_0000_0000 <= x <= 0x4000_0000_0000_0000,
    ensures
        r == x * x,
{
    num::pow(x, 2)
}

/// Numerator of the variance-reduction score of a split: with `ml` of `m`
/// documents and gradient sum `ll` of `l` on the left, the score is
/// `ll^2 / ml + (l - ll)^2 / (m - ml)`, and the split's loss is its negation.
pub open spec fn score_num(m: int, l: int, ml: int, ll: int) -> int {
    ll * ll * (m - ml) + (l - ll) * (l - ll) * ml
}

/// Denominator of the score of a split (see `score_num`).
pub open spec fn score_den(m: int, ml: int) -> int {
    ml * (m - ml)
}

/// `n1 / d1 > n2 / d2` for positive denominators.
pub open spec fn ratio_gt(n1: int, d1: int, n2: int, d2: int) -> bool {
    n1 * d2 > n2 * d1
}

/// Integer division rounding toward zero.
pub open spec fn trunc_div(a: int, b: int) -> int {
    if a >= 0 {
        a / b
    } else {
        -((-a) / b)
    }
}

/// Average gradient of `count` documents whose gradients sum to `sum`, 0 when empty.
#[verifier::opaque]
pub open spec fn leaf_weight(sum: int, count: int) -> int {
    if count <= 0 {
        0
    } else {
        trunc_div(sum, count)
    }
}

/// Gain of a split, `(ml * mr / (ml + mr)) * (ll / ml - lr / mr)^2`, rounded down,
/// written over the integers as `(ll * mr - lr * ml)^2 / ((ml + mr) * ml * mr)`.
#[verifier::opaque]
pub open spec fn gain_of(ml: int, ll: int, mr: int, lr: int) -> int {
    if ml <= 0 || mr <= 0 {
        0
    } else {
        (ll * mr - lr * ml) * (ll * mr - lr * ml) / ((ml + mr) * ml * mr)
    }
}

proof fn lemma_mul_bound(a: int, b: int, ba: int, bb: int)
    requires
        -ba <= a <= ba,
        0 <= b <= bb,
    ensures
        -(ba * bb) <= a * b <= ba * bb,
{
    assert(-(ba * bb) <= a * b <= ba * bb) by (nonlinear_arith)
        requires
            -ba <= a <= ba,
            0 <= b <= bb,
    ;
}

proof fn lemma_square_bound(a: int, ba: int)
    requires
        -ba <= a <= ba,
    ensures
        0 <= a * a <= ba * ba,
{
    assert(0 <= a * a <= ba * ba) by (nonlinear_arith)
        requires
            -ba <= a <= ba,
    ;
}

/// A leaf weight of a bounded sum stays within the same bound.
pub proof fn lemma_leaf_weight_bounded(sum: int, count: int)
    requires
        -MAX_SUM <= sum <= MAX_SUM,
    ensures
        -MAX_SUM <= leaf_weight(sum, count) <= MAX_SUM,
{
    reveal(leaf_weight);
    if count > 0 {
        if sum >= 0 {
            assert(sum / count <= sum) by (nonlinear_arith)
                requires
                    sum >= 0,
                    count > 0,
            ;
            assert(sum / count >= 0) by (nonlinear_arith)
                requires
                    sum >= 0,
                    count > 0,
            ;
        } else {
            assert((-sum) / count <= -sum) by (nonlinear_arith)
                requires
                    sum < 0,
                    count > 0,
            ;
            assert((-sum) / count >= 0) by (nonlinear_arith)
                requires
                    sum < 0,
                    count > 0,
            ;
        }
    }
}

/// The gain of a split over at most `MAX_DOCS` documents with bounded
/// gradient sums lies in `[0, MAX_GAIN]`.
pub proof fn lemma_gain_bounded(ml: int, ll: int, mr: int, lr: int)
    requires
        0 <= ml,
        0 <= mr,
        ml + mr <= MAX_DOCS,
        -MAX_SUM <= ll <= MAX_SUM,
        -MAX_SUM <= lr <= MAX_SUM,
    ensures
        0 <= gain_of(ml, ll, mr, lr) <= MAX_GAIN,
{
    reveal(gain_of);
    if ml > 0 && mr > 0 {
        lemma_mul_bound(ll, mr, 0x1_0000_0000, 0x1_0000);
        lemma_mul_bound(lr, ml, 0x1_0000_0000, 0x1_0000);
        let diff = ll * mr - lr * ml;
        lemma_square_bound(diff, 0x2_0000_0000_0000);
        let den = (ml + mr) * ml * mr;
        assert(den > 0) by (nonlinear_arith)
            requires
                ml > 0,
                mr > 0,
                den == (ml + mr) * ml * mr,
        ;
        let sq = diff * diff;
        assert(sq / den <= sq) by (nonlinear_arith)
            requires
                sq >= 0,
                den > 0,
        ;
        assert(sq / den >= 0) by (nonlinear_arith)
            requires
                sq >= 0,
                den > 0,
        ;
    }
}

/// The gain of a split is never negative: it is a non-negative share of the
/// documents times a square.
pub proof fn lemma_gain_nonneg(ml: int, ll: int, mr: int, lr: int)
    ensures
        gain_of(ml, ll, mr, lr) >= 0,
{
    reveal(gain_of);
    if ml > 0 && mr > 0 {
        let diff = ll * mr - lr * ml;
        let den = (ml + mr) * ml * mr;
        assert(den > 0) by (nonlinear_arith)
            requires
                ml > 0,
                mr > 0,
                den == (ml + mr) * ml * mr,
        ;
        assert(diff * diff >= 0) by (nonlinear_arith);
        assert((diff * diff) / den >= 0) by (nonlinear_arith)
            requires
                diff * diff >= 0,
                den > 0,
        ;
    }
}

/// The score of a split over at most `MAX_DOCS` documents with bounded sums
/// is a non-negative numerator below `MAX_SCORE_NUM` over a positive
/// denominator of at most `2^32`.
pub proof fn lemma_score_range(m: int, l: int, ml: int, ll: int)
    requires
        0 < ml < m <= MAX_DOCS,
        -MAX_SUM <= l <= MAX_SUM,
        -MAX_SUM <= ll <= MAX_SUM,
    ensures
        0 <= score_num(m, l, ml, ll) < MAX_SCORE_NUM,
        0 < score_den(m, ml) <= 0x1_0000_0000,
{
    let mr = m - ml;
    let lr = l - ll;
    lemma_square_bound(ll, 0x1_0000_0000);
    lemma_square_bound(lr, 0x2_0000_0000);
    lemma_mul_bound(ll * ll, mr, 0x4_0000_0000_0000_0000, 0x1_0000);
    lemma_mul_bound(lr * lr, ml, 0x4_0000_0000_0000_0000, 0x1_0000);
    lemma_mul_bound(ml, mr, 0x1_0000, 0x1_0000);
    assert(ll * ll * mr >= 0 && lr * lr * ml >= 0) by (nonlinear_arith)
        requires
            ll * ll >= 0,
            lr * lr >= 0,
            mr >= 0,
            ml >= 0,
    ;
    assert(ml * mr > 0) by (nonlinear_arith)
        requires
            ml > 0,
            mr > 0,
    ;
}

/// `ratio_gt` is transitive across a non-greater step: if `a <= b < c` as
/// fractions with positive denominators, then `a < c`, so `a` is not greater.
pub proof fn lemma_ratio_chain(an: int, ad: int, bn: int, bd: int, cn: int, cd: int)
    requires
        ad > 0,
        bd > 0,
        cd > 0,
        !ratio_gt(an, ad, bn, bd),
        ratio_gt(cn, cd, bn, bd),
    ensures
        !ratio_gt(an, ad, cn, cd),
{
    assert(an * bd * cd <= bn * ad * cd) by (nonlinear_arith)
        requires
            an * bd <= bn * ad,
            cd > 0,
    ;
    assert(cn * bd * ad > bn * cd * ad) by (nonlinear_arith)
        requires
            cn * bd > bn * cd,
            ad > 0,
    ;
    assert(an * cd <= cn * ad) by (nonlinear_arith)
        requires
            an * bd * cd <= bn * ad * cd,
            cn * bd * ad > bn * cd * ad,
            bd > 0,
    ;
}

/// Score of a split as an exact fraction `(numerator, denominator)`.
pub fn split_score(m: u64, l: i64, ml: u64, ll: i64) -> (r: (u128, u128))
    requires
        0 < ml < m <= MAX_DOCS,
        -MAX_SUM <= l <= MAX_SUM,
        -MAX_SUM <= ll <= MAX_SUM,
    ensures
        r.0 == score_num(m as int, l as int, ml as int, ll as int),
        r.1 == score_den(m as int, ml as int),
        r.1 > 0,
        r.0 < MAX_SCORE_NUM,
        r.1 <= 0x1_0000_0000,
{
    let mr: u64 = m - ml;
    let lr: i128 = l as i128 - ll as i128;
    let a: i128 = square(ll as i128);
    let b: i128 = square(lr);
    proof {
        lemma_square_bound(ll as int, 0x1_0000_0000);
        lemma_square_bound(lr as int, 0x2_0000_0000);
        lemma_mul_bound(a as int, mr as int, 0x4_0000_0000_0000_0000, 0x1_0000);
        lemma_mul_bound(b as int, ml as int, 0x4_0000_0000_0000_0000, 0x1_0000);
        lemma_mul_bound(ml as int, mr as int, 0x1_0000, 0x1_0000);
        assert(a * mr >= 0 && b * ml >= 0) by (nonlinear_arith)
            requires
                a >= 0,
                b >= 0,
                mr >= 0,
                ml >= 0,
        ;
        assert(ml * mr > 0) by (nonlinear_arith)
            requires
                ml > 0,
                mr > 0,
        ;
    }
    let num: u128 = (a * (mr as i128) + b * (ml as i128)) as u128;
    let den: u128 = (ml as u128) * (mr as u128);
    (num, den)
}

/// Whether the fraction `n1 / d1` is strictly larger than `n2 / d2`.
pub fn ratio_greater(n1: u128, d1: u128, n2: u128, d2: u128) -> (r: bool)
    requires
        n1 < MAX_SCORE_NUM,
        n2 < MAX_SCORE_NUM,
        d1 <= 0x1_0000_0000,
        d2 <= 0x1_0000_0000,
    ensures
        r == ratio_gt(n1 as int, d1 as int, n2 as int, d2 as int),
{
    proof {
        lemma_mul_bound(n1 as int, d2 as int, MAX_SCORE_NUM as int, 0x1_0000_0000);
        lemma_mul_bound(n2 as int, d1 as int, MAX_SCORE_NUM as int, 0x1_0000_0000);
    }
    n1 * d2 > n2 * d1
}

/// Average of `count` gradients summing to `sum`, rounded toward zero; 0 when empty.
pub fn leaf_weight_of(sum: i64, count: u64) -> (r: i64)
    requires
        -MAX_SUM <= sum <= MAX_SUM,
    ensures
        r == leaf_weight(sum as int, count as int),
        -MAX_SUM <= r <= MAX_SUM,
{
    reveal(leaf_weight);
    if count == 0 {
        0
    } else if sum >= 0 {
        proof {
            assert((sum as int) / (count as int) <= sum as int) by (nonlinear_arith)
                requires
                    sum >= 0,
                    count > 0,
            ;
        }
        ((sum as u64) / count) as i64
    } else {
        let mag: u64 = (-(sum as i128)) as u64;
        proof {
            assert((mag as int) / (count as int) <= mag as int) by (nonlinear_arith)
                requires
                    mag >= 0,
                    count > 0,
            ;
        }
        -((mag / count) as i64)
    }
}

/// Gain of a split whose children hold `ml` and `mr` documents with gradient
/// sums `ll` and `lr`.
pub fn split_gain(ml: u64, ll: i64, mr: u64, lr: i64) -> (r: u128)
    requires
        ml + mr <= MAX_DOCS,
        -MAX_SUM <= ll <= MAX_SUM,
        -MAX_SUM <= lr <= MAX_SUM,
    ensures
        r == gain_of(ml as int, ll as int, mr as int, lr as int),
        r <= MAX_GAIN,
{
    reveal(gain_of);
    if ml == 0 || mr == 0 {
        return 0;
    }
    proof {
        lemma_mul_bound(ll as int, mr as int, 0x1_0000_0000, 0x1_0000);
        lemma_mul_bound(lr as int, ml as int, 0x1_0000_0000, 0x1_0000);
    }
    let diff: i128 = (ll as i128) * (mr as i128) - (lr as i128) * (ml as i128);
    let sq: i128 = square(diff);
    proof {
        lemma_square_bound(diff as int, 0x2_0000_0000_0000);
        lemma_mul_bound(ml as int, mr as int, 0x1_0000, 0x1_0000);
        lemma_mul_bound((ml * mr) as int, (ml + mr) as int, 0x1_0000_0000, 0x1_0000);
        assert((ml + mr) * (ml * mr) > 0) by (nonlinear_arith)
            requires
                ml > 0,
                mr > 0,
        ;
        assert((ml + mr) * ml * mr == (ml * mr) * (ml + mr)) by (nonlinear_arith);
        assert((sq as int) / ((ml + mr) * (ml * mr)) <= sq as int) by (nonlinear_arith)
            requires
                sq >= 0,
                (ml + mr) * (ml * mr) > 0,
        ;
    }
    let mm: u128 = (ml as u128) * (mr as u128);
    let den: u128 = ((ml + mr) as u128) * mm;
    (sq as u128) / den
}

} // verus!
