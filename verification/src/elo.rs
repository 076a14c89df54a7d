//! Rating arithmetic in whole rating points.
//!
//! A judgment moves each contestant by `K * (score - expected)`, rounded to the nearest
//! whole point. The expected score `1 / (1 + 10^(gap / 400))` is evaluated in fixed point,
//! in billionths, from two short tables of roots of ten.

use vstd::prelude::*;

use crate::error::DbError;

verus! {

/// One, in the fixed point used for scores: scores are counted in billionths.
pub const SCALE: u64 = 1_000_000_000;

/// A rating below this floor is never lowered.
pub const RATING_FLOOR: i32 = 100;

/// From this rating gap on, the weaker side's expected score is zero.
pub const GAP_LIMIT: u64 = 4000;

/// The outcome of a judgment, seen from the first contestant.
#[derive(Debug, Clone, Copy, PartialEq, Eq, Structural)]
pub enum Score {
    Loss,
    Draw,
    Win,
}

impl Score {
    /// The score in billionths of a point.
    pub open spec fn scaled(self) -> int {
        match self {
            Score::Loss => 0,
            Score::Draw => (SCALE / 2) as int,
            Score::Win => SCALE as int,
        }
    }

    /// The same outcome seen from the other contestant.
    pub open spec fn reversed(self) -> Score {
        match self {
            Score::Loss => Score::Win,
            Score::Draw => Score::Draw,
            Score::Win => Score::Loss,
        }
    }

    /// The number of half points scored: 0 for a loss, 1 for a draw, 2 for a win.
    pub open spec fn half_points(self) -> int {
        match self {
            Score::Loss => 0,
            Score::Draw => 1,
            Score::Win => 2,
        }
    }

    /// The score that `half_points` half points stand for: none is a loss, one a draw, and
    /// two, or more, a win.
    pub open spec fn of_half_points(half_points: int) -> Score {
        if half_points <= 0 {
            Score::Loss
        } else if half_points == 1 {
            Score::Draw
        } else {
            Score::Win
        }
    }

    /// Reads a score given in half points; anything above two half points is no score.
    pub fn from_half_points(half_points: u32) -> (score: Result<Score, DbError>)
        ensures
            half_points <= 2 ==> score == Ok::<Score, DbError>(
                Score::of_half_points(half_points as int),
            ),
            half_points > 2 ==> score == Err::<Score, DbError>(DbError::InvalidScore),
    {
        if half_points == 0 {
            Ok(Score::Loss)
        } else if half_points == 1 {
            Ok(Score::Draw)
        } else if half_points == 2 {
            Ok(Score::Win)
        } else {
            Err(DbError::InvalidScore)
        }
    }

    /// The score in half points.
    pub fn to_half_points(self) -> (half_points: u32)
        ensures
            half_points == self.half_points(),
    {
        match self {
            Score::Loss => 0,
            Score::Draw => 1,
            Score::Win => 2,
        }
    }

    /// The same outcome seen from the other contestant.
    pub fn opposite(self) -> (other: Score)
        ensures
            other == self.reversed(),
    {
        match self {
            Score::Loss => Score::Win,
            Score::Draw => Score::Draw,
            Score::Win => Score::Loss,
        }
    }

    fn scaled_value(self) -> (s: u64)
        ensures
            s == self.scaled(),
    {
        match self {
            Score::Loss => 0,
            Score::Draw => SCALE / 2,
            Score::Win => SCALE,
        }
    }
}

/// The largest rating change one judgment can cause for a contestant rated `rating`:
/// the higher the rating, the smaller the step.
pub open spec fn k_factor_of(rating: int) -> int {
    if rating > 2400 {
        5
    } else if rating > 2200 {
        10
    } else if rating > 2000 {
        15
    } else if rating > 1800 {
        20
    } else if rating > 1600 {
        25
    } else if rating > 1400 {
        30
    } else if rating > 1200 {
        35
    } else if rating > 1000 {
        40
    } else if rating > 800 {
        60
    } else {
        80
    }
}

/// `10^(k / 20)` in billionths, rounded to the nearest billionth, for `0 <= k < 20`.
pub open spec fn coarse_root(k: int) -> int {
    if k <= 0 {
        1_000_000_000
    } else if k == 1 {
        1_122_018_454
    } else if k == 2 {
        1_258_925_412
    } else if k == 3 {
        1_412_537_545
    } else if k == 4 {
        1_584_893_192
    } else if k == 5 {
        1_778_279_410
    } else if k == 6 {
        1_995_262_315
    } else if k == 7 {
        2_238_721_139
    } else if k == 8 {
        2_511_886_432
    } else if k == 9 {
        2_818_382_931
    } else if k == 10 {
        3_162_277_660
    } else if k == 11 {
        3_548_133_892
    } else if k == 12 {
        3_981_071_706
    } else if k == 13 {
        4_466_835_922
    } else if k == 14 {
        5_011_872_336
    } else if k == 15 {
        5_623_413_252
    } else if k == 16 {
        6_309_573_445
    } else if k == 17 {
        7_079_457_844
    } else if k == 18 {
        7_943_282_347
    } else {
        8_912_509_381
    }
}

/// `10^(k / 400)` in billionths, rounded to the nearest billionth, for `0 <= k < 20`.
pub open spec fn fine_root(k: int) -> int {
    if k <= 0 {
        1_000_000_000
    } else if k == 1 {
        1_005_773_063
    } else if k == 2 {
        1_011_579_454
    } else if k == 3 {
        1_017_419_366
    } else if k == 4 {
        1_023_292_992
    } else if k == 5 {
        1_029_200_527
    } else if k == 6 {
        1_035_142_167
    } else if k == 7 {
        1_041_118_108
    } else if k == 8 {
        1_047_128_548
    } else if k == 9 {
        1_053_173_687
    } else if k == 10 {
        1_059_253_725
    } else if k == 11 {
        1_065_368_864
    } else if k == 12 {
        1_071_519_305
    } else if k == 13 {
        1_077_705_254
    } else if k == 14 {
        1_083_926_914
    } else if k == 15 {
        1_090_184_492
    } else if k == 16 {
        1_096_478_196
    } else if k == 17 {
        1_102_808_234
    } else if k == 18 {
        1_109_174_815
    } else {
        1_115_578_151
    }
}

/// `10^(r / 400)` in billionths for `0 <= r < 400`: the product of one entry of each table.
pub open spec fn root_factor(r: int) -> int {
    (coarse_root(r / 20) * fine_root(r % 20) + SCALE / 2) / (SCALE as int)
}

/// Ten to the power `e`.
pub open spec fn power_of_ten(e: nat) -> nat
    decreases e,
{
    if e == 0 {
        1
    } else {
        10 * power_of_ten((e - 1) as nat)
    }
}

/// The odds `10^(gap / 400)` against the weaker side, in billionths, for `0 <= gap < GAP_LIMIT`.
pub open spec fn odds(gap: int) -> int {
    root_factor(gap % 400) * power_of_ten((gap / 400) as nat)
}

/// The expected score, in billionths, of a contestant rated `gap >= 0` points below the
/// opponent: `1 / (1 + odds)`, rounded to the nearest billionth.
pub open spec fn expected_low(gap: int) -> int {
    if gap >= GAP_LIMIT {
        0
    } else {
        (SCALE * SCALE + (SCALE + odds(gap)) / 2) / (SCALE + odds(gap))
    }
}

/// The expected score, in billionths, of a contestant whose opponent is rated `diff` points
/// higher (lower, where `diff` is negative). The two sides' expectations add up to one.
pub open spec fn expected_score(diff: int) -> int {
    if diff >= 0 {
        expected_low(diff)
    } else {
        SCALE - expected_low(-diff)
    }
}

/// `num / den` rounded to the nearest integer, halves away from zero.
pub open spec fn round_half_away(num: int, den: int) -> int
    recommends
        den > 0,
{
    if num >= 0 {
        (2 * num + den) / (2 * den)
    } else {
        -((2 * (-num) + den) / (2 * den))
    }
}

/// The rating change that the formula gives before the floor is applied.
pub open spec fn raw_change(own: int, other: int, score: Score) -> int {
    round_half_away(
        k_factor_of(own) * (score.scaled() - expected_score(other - own)),
        SCALE as int,
    )
}

/// A contestant already below the floor keeps its rating instead of losing points.
pub open spec fn floor_clamp(rating: int, delta: int) -> int {
    if rating < RATING_FLOOR && delta < 0 {
        0
    } else {
        delta
    }
}

/// The rating change of a contestant rated `own` who scored `score` against `other`.
pub open spec fn rating_change(own: int, other: int, score: Score) -> int {
    floor_clamp(own, raw_change(own, other, score))
}

/// Every table entry lies between one and ten.
pub proof fn lemma_root_tables_in_range(k: int)
    ensures
        SCALE <= coarse_root(k) <= 8_912_509_381,
        SCALE <= fine_root(k) <= 1_115_578_151,
{
}

/// The combined factor lies between one and ten as well.
pub proof fn lemma_root_factor_in_range(r: int)
    ensures
        SCALE <= root_factor(r) < 10 * SCALE,
{
    let c = coarse_root(r / 20);
    let f = fine_root(r % 20);
    lemma_root_tables_in_range(r / 20);
    lemma_root_tables_in_range(r % 20);
    assert(c * f >= 1_000_000_000 * 1_000_000_000) by (nonlinear_arith)
        requires
            c >= 1_000_000_000,
            f >= 1_000_000_000,
    ;
    assert(c * f <= 8_912_509_381 * 1_115_578_151) by (nonlinear_arith)
        requires
            0 <= c <= 8_912_509_381,
            0 <= f <= 1_115_578_151,
    ;
}

/// Small powers of ten fit comfortably into 64 bits.
pub proof fn lemma_power_of_ten_small(e: nat)
    requires
        e <= 9,
    ensures
        1 <= power_of_ten(e) <= 1_000_000_000,
{
    assert(power_of_ten(0) == 1);
    assert(power_of_ten(1) == 10);
    assert(power_of_ten(2) == 100);
    assert(power_of_ten(3) == 1_000);
    assert(power_of_ten(4) == 10_000);
    assert(power_of_ten(5) == 100_000);
    assert(power_of_ten(6) == 1_000_000);
    assert(power_of_ten(7) == 10_000_000);
    assert(power_of_ten(8) == 100_000_000);
    assert(power_of_ten(9) == 1_000_000_000);
}

/// Below the gap limit the odds are at least even and stay below `10^19` billionths.
pub proof fn lemma_odds_in_range(gap: int)
    requires
        0 <= gap < GAP_LIMIT,
    ensures
        SCALE <= odds(gap) < 10_000_000_000_000_000_000,
{
    let f = root_factor(gap % 400);
    let p = power_of_ten((gap / 400) as nat);
    lemma_root_factor_in_range(gap % 400);
    lemma_power_of_ten_small((gap / 400) as nat);
    assert(f * p >= f) by (nonlinear_arith)
        requires
            f >= 0,
            p >= 1,
    ;
    assert(f * p < 10_000_000_000 * 1_000_000_000) by (nonlinear_arith)
        requires
            0 <= f < 10_000_000_000,
            0 <= p <= 1_000_000_000,
    ;
}

/// The weaker side expects at most half a point.
pub proof fn lemma_expected_low_in_range(gap: int)
    requires
        0 <= gap,
    ensures
        0 <= expected_low(gap) <= SCALE / 2,
{
    if gap < GAP_LIMIT {
        lemma_odds_in_range(gap);
        let total = SCALE + odds(gap);
        let num = SCALE * SCALE + total / 2;
        assert(0 <= num / total <= 500_000_000) by (nonlinear_arith)
            requires
                total >= 2_000_000_000,
                num == 1_000_000_000 * 1_000_000_000 + total / 2,
        ;
    }
}

/// An expected score is a probability: it lies between zero and one.
pub proof fn lemma_expected_score_in_range(diff: int)
    ensures
        0 <= expected_score(diff) <= SCALE,
{
    if diff >= 0 {
        lemma_expected_low_in_range(diff);
    } else {
        lemma_expected_low_in_range(-diff);
    }
}

/// Equally rated contestants each expect exactly half a point.
pub proof fn lemma_expected_score_of_equals()
    ensures
        expected_score(0) == SCALE / 2,
{
    let f = root_factor(0);
    let p = power_of_ten(0);
    assert(p == 1);
    assert(f == SCALE);
    assert(f * p == SCALE) by (nonlinear_arith)
        requires
            f == SCALE,
            p == 1,
    ;
    assert(odds(0) == 1_000_000_000);
    assert((1_000_000_000int * 1_000_000_000 + (1_000_000_000int + 1_000_000_000) / 2) / (
    1_000_000_000int + 1_000_000_000) == 500_000_000);
}

/// The expectations of the two sides of a contest add up to exactly one point.
pub proof fn lemma_expected_scores_sum_to_one(diff: int)
    ensures
        expected_score(diff) + expected_score(-diff) == SCALE,
{
    if diff == 0 {
        lemma_expected_score_of_equals();
    }
}

/// Rounding returns the integer nearest to the quotient.
pub proof fn lemma_round_half_away_is_nearest(num: int, den: int)
    requires
        den > 0,
    ensures
        -den <= 2 * (round_half_away(num, den) * den - num) <= den,
{
    let m = if num >= 0 { num } else { -num };
    let q = (2 * m + den) / (2 * den);
    assert(0 <= (2 * m + den) - q * (2 * den) < 2 * den) by (nonlinear_arith)
        requires
            den > 0,
            q == (2 * m + den) / (2 * den),
    ;
    assert(q * (2 * den) == 2 * (q * den)) by (nonlinear_arith);
    if num < 0 {
        assert((-q) * den == -(q * den)) by (nonlinear_arith);
    }
}

/// Zero rounds to zero.
pub proof fn lemma_round_half_away_of_zero(den: int)
    requires
        den > 0,
    ensures
        round_half_away(0, den) == 0,
{
    assert((2 * 0 + den) / (2 * den) == 0) by (nonlinear_arith)
        requires
            den > 0,
    ;
}

/// Rounding is symmetric about zero.
pub proof fn lemma_round_half_away_is_odd(num: int, den: int)
    requires
        den > 0,
    ensures
        round_half_away(-num, den) == -round_half_away(num, den),
{
    if num == 0 {
        lemma_round_half_away_of_zero(den);
    }
}

/// Rounding keeps a quotient inside the whole bounds that enclose it.
pub proof fn lemma_round_half_away_bounded(num: int, den: int, bound: int)
    requires
        den > 0,
        bound >= 0,
        -bound * den <= num <= bound * den,
    ensures
        -bound <= round_half_away(num, den) <= bound,
        num >= 0 ==> round_half_away(num, den) >= 0,
        num <= 0 ==> round_half_away(num, den) <= 0,
{
    let m = if num >= 0 { num } else { -num };
    assert(-bound * den == -(bound * den)) by (nonlinear_arith);
    assert(0 <= (2 * m + den) / (2 * den) <= bound) by (nonlinear_arith)
        requires
            den > 0,
            bound >= 0,
            0 <= m <= bound * den,
    ;
    if num == 0 {
        lemma_round_half_away_of_zero(den);
    }
}

/// No judgment moves a rating by more than the contestant's K-factor; a win never costs
/// points and a loss never earns any.
pub proof fn lemma_change_bounded_by_k(own: int, other: int, score: Score)
    ensures
        -k_factor_of(own) <= raw_change(own, other, score) <= k_factor_of(own),
        -k_factor_of(own) <= rating_change(own, other, score) <= k_factor_of(own),
        score == Score::Win ==> rating_change(own, other, score) >= 0,
        score == Score::Loss ==> rating_change(own, other, score) <= 0,
{
    let k = k_factor_of(own);
    let e = expected_score(other - own);
    let s = score.scaled();
    lemma_expected_score_in_range(other - own);
    assert(-k * SCALE <= k * (s - e) <= k * SCALE) by (nonlinear_arith)
        requires
            0 < k,
            -SCALE <= s - e <= SCALE,
    ;
    assert(score == Score::Win ==> k * (s - e) >= 0) by (nonlinear_arith)
        requires
            0 < k,
            score == Score::Win ==> s - e >= 0,
    ;
    assert(score == Score::Loss ==> k * (s - e) <= 0) by (nonlinear_arith)
        requires
            0 < k,
            score == Score::Loss ==> s - e <= 0,
    ;
    lemma_round_half_away_bounded(k * (s - e), SCALE as int, k);
}

/// A draw between equally rated contestants leaves both ratings as they are.
pub proof fn lemma_draw_between_equals_changes_nothing(rating: int)
    ensures
        rating_change(rating, rating, Score::Draw) == 0,
        rating_change(rating, rating, Score::Draw.reversed()) == 0,
{
    lemma_expected_score_of_equals();
    let k = k_factor_of(rating);
    assert(k * (Score::Draw.scaled() - expected_score(0)) == 0) by (nonlinear_arith)
        requires
            Score::Draw.scaled() - expected_score(0) == 0,
    ;
    lemma_round_half_away_of_zero(SCALE as int);
}

/// Whether the floor changes what the formula gives for either side of a contest.
pub open spec fn floor_applies(a: int, b: int, score: Score) -> bool {
    ||| a < RATING_FLOOR && raw_change(a, b, score) < 0
    ||| b < RATING_FLOOR && raw_change(b, a, score.reversed()) < 0
}

/// Between contestants with the same K-factor the formula gives one side exactly what it
/// takes from the other; the stored changes cancel as well unless the floor spares one side.
pub proof fn lemma_equal_k_conserves_points(a: int, b: int, score: Score)
    requires
        k_factor_of(a) == k_factor_of(b),
    ensures
        raw_change(a, b, score) + raw_change(b, a, score.reversed()) == 0,
        rating_change(a, b, score) + rating_change(b, a, score.reversed()) == 0 <==> !floor_applies(
            a,
            b,
            score,
        ),
{
    let k = k_factor_of(a);
    let ea = expected_score(b - a);
    let eb = expected_score(a - b);
    lemma_expected_scores_sum_to_one(b - a);
    assert(a - b == -(b - a));
    assert(score.reversed().scaled() == SCALE - score.scaled());
    assert(k * (score.reversed().scaled() - eb) == -(k * (score.scaled() - ea)))
        by (nonlinear_arith)
        requires
            score.reversed().scaled() - eb == -(score.scaled() - ea),
    ;
    lemma_round_half_away_is_odd(k * (score.scaled() - ea), SCALE as int);
}

/// A contestant below the floor who would lose points keeps its rating, and the opponent
/// still receives what the formula gives it.
pub proof fn lemma_floor_spares_only_the_weak(a: int, b: int, score: Score)
    requires
        a < RATING_FLOOR,
        raw_change(a, b, score) < 0,
    ensures
        rating_change(a, b, score) == 0,
        rating_change(b, a, score.reversed()) == raw_change(b, a, score.reversed()),
{
    // The opponent's side of the formula is the mirror image, so it cannot be negative.
    let k = k_factor_of(a);
    let kb = k_factor_of(b);
    let ea = expected_score(b - a);
    let eb = expected_score(a - b);
    let sa = score.scaled();
    let sb = score.reversed().scaled();
    lemma_expected_scores_sum_to_one(b - a);
    assert(a - b == -(b - a));
    assert(sb - eb == -(sa - ea));
    lemma_expected_score_in_range(b - a);
    if sa - ea >= 0 {
        assert(k * (sa - ea) >= 0) by (nonlinear_arith)
            requires
                k > 0,
                sa - ea >= 0,
        ;
        lemma_round_half_away_bounded(k * (sa - ea), SCALE as int, k);
        assert(-k * SCALE <= k * (sa - ea) <= k * SCALE) by (nonlinear_arith)
            requires
                0 < k,
                -SCALE <= sa - ea <= SCALE,
        ;
        assert(false);
    }
    assert(kb * (sb - eb) >= 0) by (nonlinear_arith)
        requires
            kb > 0,
            sb - eb > 0,
    ;
    assert(-kb * SCALE <= kb * (sb - eb) <= kb * SCALE) by (nonlinear_arith)
        requires
            0 < kb,
            -SCALE <= sb - eb <= SCALE,
    ;
    lemma_round_half_away_bounded(kb * (sb - eb), SCALE as int, kb);
}

/// Computes the K-factor that applies to a contestant rated `rating`.
pub fn k_factor(rating: i32) -> (k: i64)
    ensures
        k == k_factor_of(rating as int),
{
    if rating > 2400 {
        5
    } else if rating > 2200 {
        10
    } else if rating > 2000 {
        15
    } else if rating > 1800 {
        20
    } else if rating > 1600 {
        25
    } else if rating > 1400 {
        30
    } else if rating > 1200 {
        35
    } else if rating > 1000 {
        40
    } else if rating > 800 {
        60
    } else {
        80
    }
}

fn coarse_root_value(k: u64) -> (root: u64)
    ensures
        root == coarse_root(k as int),
{
    if k <= 0 {
        1_000_000_000
    } else if k == 1 {
        1_122_018_454
    } else if k == 2 {
        1_258_925_412
    } else if k == 3 {
        1_412_537_545
    } else if k == 4 {
        1_584_893_192
    } else if k == 5 {
        1_778_279_410
    } else if k == 6 {
        1_995_262_315
    } else if k == 7 {
        2_238_721_139
    } else if k == 8 {
        2_511_886_432
    } else if k == 9 {
        2_818_382_931
    } else if k == 10 {
        3_162_277_660
    } else if k == 11 {
        3_548_133_892
    } else if k == 12 {
        3_981_071_706
    } else if k == 13 {
        4_466_835_922
    } else if k == 14 {
        5_011_872_336
    } else if k == 15 {
        5_623_413_252
    } else if k == 16 {
        6_309_573_445
    } else if k == 17 {
        7_079_457_844
    } else if k == 18 {
        7_943_282_347
    } else {
        8_912_509_381
    }
}

fn fine_root_value(k: u64) -> (root: u64)
    ensures
        root == fine_root(k as int),
{
    if k <= 0 {
        1_000_000_000
    } else if k == 1 {
        1_005_773_063
    } else if k == 2 {
        1_011_579_454
    } else if k == 3 {
        1_017_419_366
    } else if k == 4 {
        1_023_292_992
    } else if k == 5 {
        1_029_200_527
    } else if k == 6 {
        1_035_142_167
    } else if k == 7 {
        1_041_118_108
    } else if k == 8 {
        1_047_128_548
    } else if k == 9 {
        1_053_173_687
    } else if k == 10 {
        1_059_253_725
    } else if k == 11 {
        1_065_368_864
    } else if k == 12 {
        1_071_519_305
    } else if k == 13 {
        1_077_705_254
    } else if k == 14 {
        1_083_926_914
    } else if k == 15 {
        1_090_184_492
    } else if k == 16 {
        1_096_478_196
    } else if k == 17 {
        1_102_808_234
    } else if k == 18 {
        1_109_174_815
    } else {
        1_115_578_151
    }
}

fn root_factor_value(r: u64) -> (factor: u64)
    requires
        r < 400,
    ensures
        factor == root_factor(r as int),
{
    let c: u64 = coarse_root_value(r / 20);
    let f: u64 = fine_root_value(r % 20);
    proof {
        lemma_root_tables_in_range((r / 20) as int);
        lemma_root_tables_in_range((r % 20) as int);
        assert(c * f <= 8_912_509_381 * 1_115_578_151) by (nonlinear_arith)
            requires
                0 <= c <= 8_912_509_381,
                0 <= f <= 1_115_578_151,
        ;
    }
    (c * f + SCALE / 2) / SCALE
}

fn ten_to(e: u64) -> (power: u64)
    requires
        e <= 9,
    ensures
        power == power_of_ten(e as nat),
{
    let mut power: u64 = 1;
    let mut i: u64 = 0;
    while i < e
        invariant
            i <= e <= 9,
            power == power_of_ten(i as nat),
        decreases e - i,
    {
        proof {
            lemma_power_of_ten_small(i as nat);
        }
        power = power * 10;
        i = i + 1;
    }
    power
}

fn expected_low_value(gap: u64) -> (expected: u64)
    ensures
        expected == expected_low(gap as int),
{
    if gap >= GAP_LIMIT {
        0
    } else {
        let factor: u64 = root_factor_value(gap % 400);
        let power: u64 = ten_to(gap / 400);
        proof {
            lemma_root_factor_in_range((gap % 400) as int);
            lemma_power_of_ten_small((gap / 400) as nat);
            lemma_odds_in_range(gap as int);
        }
        let total: u64 = SCALE + factor * power;
        (SCALE * SCALE + total / 2) / total
    }
}

/// Computes the expected score, in billionths, against an opponent rated `diff` points
/// higher.
pub fn expected_score_value(diff: i64) -> (expected: u64)
    ensures
        expected == expected_score(diff as int),
        expected <= SCALE,
{
    proof {
        lemma_expected_score_in_range(diff as int);
    }
    if diff >= 0 {
        expected_low_value(diff as u64)
    } else if diff == i64::MIN {
        SCALE
    } else {
        proof {
            lemma_expected_low_in_range(-diff);
        }
        SCALE - expected_low_value((-diff) as u64)
    }
}

fn raw_change_value(own: i32, other: i32, score: Score) -> (delta: i32)
    ensures
        delta == raw_change(own as int, other as int, score),
{
    let k: i64 = k_factor(own);
    let expected: i64 = expected_score_value(other as i64 - own as i64) as i64;
    let scored: i64 = score.scaled_value() as i64;
    let margin: i64 = scored - expected;
    proof {
        lemma_change_bounded_by_k(own as int, other as int, score);
        assert(-k * SCALE <= k * margin <= k * SCALE) by (nonlinear_arith)
            requires
                0 < k <= 80,
                -SCALE <= margin <= SCALE,
        ;
    }
    let num: i64 = k * margin;
    let den: u64 = 2 * SCALE;
    if num >= 0 {
        ((2 * (num as u64) + SCALE) / den) as i32
    } else {
        -(((2 * ((-num) as u64) + SCALE) / den) as i32)
    }
}

/// Computes the rating changes of both contestants of a judgment: `a` scored `s` against
/// `b`. Each side moves by its own K-factor times the margin between its score and its
/// expected score, rounded to whole points; a side already below the floor loses nothing.
pub fn calc_change(a: i32, b: i32, s: Score) -> (change: (i32, i32))
    ensures
        change.0 == rating_change(a as int, b as int, s),
        change.1 == rating_change(b as int, a as int, s.reversed()),
{
    let raw_a: i32 = raw_change_value(a, b, s);
    let raw_b: i32 = raw_change_value(b, a, s.opposite());
    let c_a: i32 = if a < RATING_FLOOR && raw_a < 0 { 0 } else { raw_a };
    let c_b: i32 = if b < RATING_FLOOR && raw_b < 0 { 0 } else { raw_b };
    (c_a, c_b)
}

} // verus!
