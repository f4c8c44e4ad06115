//! Fixed-point arithmetic of the fitness terms.
//!
//! A score is a whole number of millionths: `SCALE` stands for 1. Every
//! term is the floor of its exact value, so each is a function of integers
//! alone.
use crate::globals::{DECK_SIZE, PP_CURVE_SIZE, SCALE};
use vstd::arithmetic::div_mod::{lemma_div_multiples_vanish_quotient, lemma_fundamental_div_mod};
use vstd::arithmetic::mul::{lemma_mul_inequality, lemma_mul_strict_inequality};
use vstd::prelude::*;

verus! {

/// The cost curve that a deck should approach.
pub const IDEAL_CURVE: [i32; 8] = [4, 14, 6, 5, 4, 3, 2, 2];

/// Squared Euclidean norm of `IDEAL_CURVE`.
pub const IDEAL_NORM_SQ: u64 = 306;

/// Smallest entry of `IDEAL_CURVE`.
pub const IDEAL_MIN: u64 = 2;

/// The least cosine that a deck's curve can have with the ideal one, in
/// millionths: the floor of `SCALE * IDEAL_MIN / sqrt(IDEAL_NORM_SQ)`.
pub const COS_FLOOR: u64 = 114_332;

/// Fewest distinct cards that a complete deck can hold.
pub const MIN_DISTINCT: u64 = 14;

/// The greatest `r` with `r * r <= x`, for `x` that is not negative.
pub open spec fn floor_sqrt(x: int) -> int
    decreases x,
{
    if x <= 0 {
        0
    } else {
        let r = floor_sqrt(x - 1);
        if (r + 1) * (r + 1) <= x {
            r + 1
        } else {
            r
        }
    }
}

/// `floor_sqrt(x)` squares to at most `x`, and its successor to more.
pub proof fn lemma_floor_sqrt_bounds(x: int)
    requires
        0 <= x,
    ensures
        0 <= floor_sqrt(x),
        floor_sqrt(x) * floor_sqrt(x) <= x < (floor_sqrt(x) + 1) * (floor_sqrt(x) + 1),
    decreases x,
{
    if x > 0 {
        lemma_floor_sqrt_bounds(x - 1);
        let p = floor_sqrt(x - 1);
        if (p + 1) * (p + 1) <= x {
            assert((p + 1) * (p + 1) < (p + 1 + 1) * (p + 1 + 1)) by (nonlinear_arith)
                requires
                    0 <= p,
            ;
        }
    }
}

/// Only one number squares to at most `x` while its successor squares to
/// more.
pub proof fn lemma_floor_sqrt_unique(x: int, r: int)
    requires
        0 <= r,
        r * r <= x < (r + 1) * (r + 1),
    ensures
        r == floor_sqrt(x),
{
    assert(0 <= x) by (nonlinear_arith)
        requires
            r * r <= x,
    ;
    let s = floor_sqrt(x);
    lemma_floor_sqrt_bounds(x);
    if r < s {
        lemma_mul_inequality(r + 1, s, s);
        lemma_mul_inequality(r + 1, s, r + 1);
    } else if s < r {
        lemma_mul_inequality(s + 1, r, r);
        lemma_mul_inequality(s + 1, r, s + 1);
    }
}

/// Integer square root, rounded down.
pub fn isqrt(x: u64) -> (r: u64)
    ensures
        r == floor_sqrt(x as int),
{
    let mut lo: u64 = 0;
    let mut hi: u64 = 0x1_0000_0000;
    while hi - lo > 1
        invariant
            lo < hi <= 0x1_0000_0000,
            lo * lo <= x < hi * hi,
        decreases hi - lo,
    {
        let mid: u64 = lo + (hi - lo) / 2;
        assert(mid * mid < 0x1_0000_0000 * 0x1_0000_0000) by {
            lemma_mul_strict_inequality(mid as int, 0x1_0000_0000, 0x1_0000_0000);
            lemma_mul_inequality(mid as int, 0x1_0000_0000, mid as int);
        }
        if mid * mid <= x {
            lo = mid;
        } else {
            hi = mid;
        }
    }
    proof {
        lemma_floor_sqrt_unique(x as int, lo as int);
    }
    lo
}

/// Entry `i` of the ideal curve.
pub open spec fn ideal(i: int) -> int {
    IDEAL_CURVE[i] as int
}

/// Sum of the first `n` entries of `v`.
pub open spec fn sum_below(v: Seq<i32>, n: int) -> int
    decreases n,
{
    if n <= 0 {
        0
    } else {
        sum_below(v, n - 1) + v[n - 1]
    }
}

/// Inner product of the first `n` entries of `v` with the ideal curve's.
pub open spec fn dot_below(v: Seq<i32>, n: int) -> int
    decreases n,
{
    if n <= 0 {
        0
    } else {
        dot_below(v, n - 1) + ideal(n - 1) * v[n - 1]
    }
}

/// Sum of the squares of the first `n` entries of `v`.
pub open spec fn norm_sq_below(v: Seq<i32>, n: int) -> int
    decreases n,
{
    if n <= 0 {
        0
    } else {
        norm_sq_below(v, n - 1) + v[n - 1] * v[n - 1]
    }
}

/// The cosine between a curve and the ideal one, in millionths and rounded
/// down, from their inner product and the curve's squared norm. The empty
/// curve has cosine 0.
pub open spec fn cosine(dot: int, norm_sq: int) -> int {
    if norm_sq <= 0 {
        0
    } else {
        floor_sqrt(((SCALE * dot) * (SCALE * dot)) / (IDEAL_NORM_SQ * norm_sq))
    }
}

/// The curve term: the cosine, taken linearly from `[COS_FLOOR, SCALE]` to
/// `[0, SCALE]` and clamped there.
pub open spec fn curve_term(dot: int, norm_sq: int) -> int {
    let cos = cosine(dot, norm_sq);
    if cos <= COS_FLOOR {
        0
    } else {
        let t = ((cos - COS_FLOOR) * SCALE) / (SCALE - COS_FLOOR);
        if t > SCALE {
            SCALE as int
        } else {
            t
        }
    }
}

/// The consistency term: 1 at `MIN_DISTINCT` distinct cards or fewer,
/// falling linearly to 0 at `DECK_SIZE` distinct cards.
pub open spec fn consistency_term(distinct: int) -> int {
    if distinct >= DECK_SIZE {
        0
    } else {
        let t = ((DECK_SIZE - distinct) * SCALE) / (DECK_SIZE - MIN_DISTINCT);
        if t > SCALE {
            SCALE as int
        } else {
            t
        }
    }
}

/// The tag term: the share of a complete deck that `tagged` cards make.
pub open spec fn tags_term(tagged: int) -> int {
    (tagged * SCALE) / (DECK_SIZE as int)
}

/// The weighted sum of the three terms.
pub open spec fn weighted(
    w_curve: int,
    curve: int,
    w_length: int,
    length: int,
    w_tags: int,
    tags: int,
) -> int {
    (w_curve * curve + w_length * length + w_tags * tags) / (SCALE as int)
}

/// With no negative entry, the running sum grows with the bound.
pub proof fn lemma_sum_below_monotone(v: Seq<i32>, a: int, b: int)
    requires
        0 <= a <= b <= v.len(),
        forall|i: int| 0 <= i < v.len() ==> 0 <= #[trigger] v[i],
    ensures
        0 <= sum_below(v, a) <= sum_below(v, b),
    decreases b,
{
    if a < b {
        lemma_sum_below_monotone(v, a, b - 1);
    } else if a > 0 {
        lemma_sum_below_monotone(v, a - 1, a - 1);
    }
}

/// The curve term of a deck's cost curve.
pub fn curve_score(curve: &[i32; 8]) -> (score: u64)
    requires
        forall|i: int| 0 <= i < 8 ==> 0 <= #[trigger] curve@[i],
        sum_below(curve@, 8) <= DECK_SIZE,
    ensures
        score == curve_term(dot_below(curve@, 8), norm_sq_below(curve@, 8)),
        score <= SCALE,
{
    let mut dot: u64 = 0;
    let mut norm_sq: u64 = 0;
    let mut i: usize = 0;
    while i < PP_CURVE_SIZE
        invariant
            i <= 8,
            forall|i: int| 0 <= i < 8 ==> 0 <= #[trigger] curve@[i],
            sum_below(curve@, 8) <= DECK_SIZE,
            dot == dot_below(curve@, i as int),
            norm_sq == norm_sq_below(curve@, i as int),
            dot <= 14 * sum_below(curve@, i as int),
            norm_sq <= 40 * sum_below(curve@, i as int),
        decreases 8 - i,
    {
        proof {
            lemma_sum_below_monotone(curve@, i as int, i as int + 1);
            lemma_sum_below_monotone(curve@, i as int + 1, 8);
            assert(ideal(i as int) <= 14);
            assert(ideal(i as int) * curve@[i as int] <= 14 * curve@[i as int]) by (nonlinear_arith)
                requires
                    0 <= ideal(i as int) <= 14,
                    0 <= curve@[i as int],
            ;
            assert(0 <= ideal(i as int) * curve@[i as int]) by (nonlinear_arith)
                requires
                    0 <= ideal(i as int),
                    0 <= curve@[i as int],
            ;
            assert(0 <= curve@[i as int] * curve@[i as int] <= 40 * curve@[i as int])
                by (nonlinear_arith)
                requires
                    0 <= curve@[i as int] <= 40,
            ;
        }
        let held: u64 = curve[i] as u64;
        dot = dot + (IDEAL_CURVE[i] as u64) * held;
        norm_sq = norm_sq + held * held;
        i = i + 1;
    }
    proof {
        lemma_sum_below_monotone(curve@, 8, 8);
    }
    if norm_sq == 0 {
        return 0;
    }
    let scaled: u64 = SCALE * dot;
    assert(scaled * scaled <= 560_000_000 * 560_000_000) by (nonlinear_arith)
        requires
            0 <= scaled <= 560_000_000,
    ;
    let cos: u64 = isqrt((scaled * scaled) / (IDEAL_NORM_SQ * norm_sq));
    proof {
        let q = ((scaled * scaled) / (IDEAL_NORM_SQ * norm_sq)) as int;
        lemma_floor_sqrt_bounds(q);
        assert(cos < 0x1_0000_0000) by (nonlinear_arith)
            requires
                0 <= cos,
                cos * cos <= q,
                q <= 0xffff_ffff_ffff_ffff,
        ;
    }
    if cos <= COS_FLOOR {
        0
    } else {
        let t: u64 = ((cos - COS_FLOOR) * SCALE) / (SCALE - COS_FLOOR);
        if t > SCALE {
            SCALE
        } else {
            t
        }
    }
}

/// The consistency term of a deck with `distinct` different cards.
pub fn consistency_score(distinct: usize) -> (score: u64)
    ensures
        score == consistency_term(distinct as int),
        score <= SCALE,
{
    if distinct >= DECK_SIZE as usize {
        0
    } else {
        let t: u64 = ((DECK_SIZE as u64 - distinct as u64) * SCALE) / (DECK_SIZE as u64
            - MIN_DISTINCT);
        if t > SCALE {
            SCALE
        } else {
            t
        }
    }
}

/// The tag term of a deck in which `tagged` cards match a requested tag.
pub fn tags_score(tagged: u64) -> (score: u64)
    requires
        tagged <= DECK_SIZE,
    ensures
        score == tags_term(tagged as int),
        score <= SCALE,
{
    assert(tagged * SCALE <= 40 * SCALE) by (nonlinear_arith)
        requires
            tagged <= 40,
    ;
    assert(SCALE == 1_000_000 && DECK_SIZE as u64 == 40);
    let total: u64 = tagged * SCALE;
    assert(total <= 40_000_000);
    let score: u64 = total / (DECK_SIZE as u64);
    assert(score <= 1_000_000);
    score
}

/// The weighted sum of the three terms. With weights that sum to `SCALE`
/// the result is at most `SCALE`.
pub fn weigh(w_curve: u32, curve: u64, w_length: u32, length: u64, w_tags: u32, tags: u64) -> (score:
    u64)
    requires
        curve <= SCALE,
        length <= SCALE,
        tags <= SCALE,
    ensures
        score == weighted(
            w_curve as int,
            curve as int,
            w_length as int,
            length as int,
            w_tags as int,
            tags as int,
        ),
        w_curve + w_length + w_tags == SCALE ==> score <= SCALE,
{
    proof {
        lemma_weighted_bound(
            w_curve as int,
            curve as int,
            w_length as int,
            length as int,
            w_tags as int,
            tags as int,
        );
    }
    let a: u64 = (w_curve as u64) * curve;
    let b: u64 = (w_length as u64) * length;
    let c: u64 = (w_tags as u64) * tags;
    (a + b + c) / SCALE
}

/// A weighted sum of terms in `[0, SCALE]` is at most the sum of the
/// weights. So weights that sum to 1 keep the score in `[0, 1]`.
pub proof fn lemma_weighted_bound(
    w_curve: int,
    curve: int,
    w_length: int,
    length: int,
    w_tags: int,
    tags: int,
)
    requires
        0 <= w_curve,
        0 <= w_length,
        0 <= w_tags,
        0 <= curve <= SCALE,
        0 <= length <= SCALE,
        0 <= tags <= SCALE,
    ensures
        0 <= w_curve * curve <= w_curve * SCALE,
        0 <= w_length * length <= w_length * SCALE,
        0 <= w_tags * tags <= w_tags * SCALE,
        0 <= weighted(w_curve, curve, w_length, length, w_tags, tags) <= w_curve + w_length
            + w_tags,
{
    assert(0 <= w_curve * curve <= w_curve * SCALE) by (nonlinear_arith)
        requires
            0 <= w_curve,
            0 <= curve <= SCALE,
    ;
    assert(0 <= w_length * length <= w_length * SCALE) by (nonlinear_arith)
        requires
            0 <= w_length,
            0 <= length <= SCALE,
    ;
    assert(0 <= w_tags * tags <= w_tags * SCALE) by (nonlinear_arith)
        requires
            0 <= w_tags,
            0 <= tags <= SCALE,
    ;
    let total = w_curve * curve + w_length * length + w_tags * tags;
    let weights = w_curve + w_length + w_tags;
    assert(total <= weights * SCALE) by (nonlinear_arith)
        requires
            total == w_curve * curve + w_length * length + w_tags * tags,
            weights == w_curve + w_length + w_tags,
            w_curve * curve <= w_curve * SCALE,
            w_length * length <= w_length * SCALE,
            w_tags * tags <= w_tags * SCALE,
    ;
    lemma_fundamental_div_mod(total, SCALE as int);
    assert(total / (SCALE as int) <= weights) by (nonlinear_arith)
        requires
            0 <= total <= weights * SCALE,
            total == SCALE * (total / (SCALE as int)) + total % (SCALE as int),
            0 <= total % (SCALE as int),
            SCALE == 1_000_000,
    ;
    assert(0 <= total / (SCALE as int)) by (nonlinear_arith)
        requires
            0 <= total,
            SCALE == 1_000_000,
    ;
}

/// A curve equal to the ideal one has curve term 1.
pub proof fn lemma_ideal_curve_scores_one(v: Seq<i32>)
    requires
        v.len() == 8,
        forall|i: int| 0 <= i < 8 ==> #[trigger] v[i] == ideal(i),
    ensures
        curve_term(dot_below(v, 8), norm_sq_below(v, 8)) == SCALE,
{
    reveal_with_fuel(dot_below, 9);
    reveal_with_fuel(norm_sq_below, 9);
    assert(v[0] == 4 && v[1] == 14 && v[2] == 6 && v[3] == 5 && v[4] == 4 && v[5] == 3 && v[6] == 2
        && v[7] == 2);
    assert(dot_below(v, 8) == 306);
    assert(norm_sq_below(v, 8) == 306);
    assert(SCALE * 306 == 306_000_000);
    assert((SCALE * 306) * (SCALE * 306) == 93_636_000_000_000_000int) by (nonlinear_arith)
        requires
            SCALE * 306 == 306_000_000,
    ;
    assert(IDEAL_NORM_SQ * 306 == 93_636);
    assert(93_636_000_000_000_000int / 93_636 == 1_000_000_000_000int);
    lemma_floor_sqrt_unique(1_000_000_000_000int, 1_000_000int);
}

/// A curve with all its cards in the last bucket has curve term 0.
pub proof fn lemma_last_bucket_scores_zero(v: Seq<i32>)
    requires
        v.len() == 8,
        forall|i: int| 0 <= i < 7 ==> #[trigger] v[i] == 0,
        v[7] >= 1,
    ensures
        curve_term(dot_below(v, 8), norm_sq_below(v, 8)) == 0,
{
    reveal_with_fuel(dot_below, 9);
    reveal_with_fuel(norm_sq_below, 9);
    let n = v[7] as int;
    assert(dot_below(v, 8) == 2 * n);
    assert(norm_sq_below(v, 8) == n * n);
    let sq = n * n;
    assert(0 < sq) by (nonlinear_arith)
        requires
            sq == n * n,
            n >= 1,
    ;
    assert((SCALE * (2 * n)) * (SCALE * (2 * n)) == sq * 4_000_000_000_000int) by (nonlinear_arith)
        requires
            sq == n * n,
            SCALE == 1_000_000,
    ;
    assert(IDEAL_NORM_SQ * sq == sq * 306) by (nonlinear_arith)
        requires
            IDEAL_NORM_SQ == 306,
    ;
    lemma_div_multiples_vanish_quotient(sq, 4_000_000_000_000int, 306);
    assert(4_000_000_000_000int / 306 == 13_071_895_424int);
    lemma_floor_sqrt_unique(13_071_895_424int, 114_332int);
}

} // verus!
