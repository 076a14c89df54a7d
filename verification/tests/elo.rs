use critic::elo::{calc_change, expected_score_value, k_factor, Score, SCALE};
use critic::error::DbError;

#[test]
fn k_factor_steps_down_with_rating() {
    let ratings = [
        800, 801, 1000, 1001, 1200, 1201, 1400, 1401, 1600, 1601, 1800, 1801, 2000, 2001, 2200,
        2201, 2400, 2401,
    ];
    let expected = [80, 60, 60, 40, 40, 35, 35, 30, 30, 25, 25, 20, 20, 15, 15, 10, 10, 5];
    for (rating, k) in ratings.iter().zip(expected.iter()) {
        assert_eq!(k_factor(*rating), *k);
    }
    assert_eq!(k_factor(i32::MIN), 80);
    assert_eq!(k_factor(i32::MAX), 5);
}

#[test]
fn expected_score_exact_values() {
    assert_eq!(expected_score_value(0), SCALE / 2);
    assert_eq!(expected_score_value(400), 90_909_091);
    assert_eq!(expected_score_value(-400), 909_090_909);
    assert_eq!(expected_score_value(10), 485_612_816);
    assert_eq!(expected_score_value(3999), 0);
    assert_eq!(expected_score_value(4000), 0);
    assert_eq!(expected_score_value(-4000), SCALE);
}

#[test]
fn expected_scores_of_both_sides_add_up_to_one() {
    for diff in [-5000i64, -4000, -3999, -801, -400, -17, -1, 0, 1, 17, 400, 801, 3999, 4000] {
        assert_eq!(expected_score_value(diff) + expected_score_value(-diff), SCALE);
    }
}

#[test]
fn win_between_equals() {
    assert_eq!(calc_change(1000, 1000, Score::Win), (30, -30));
    assert_eq!(calc_change(1200, 1200, Score::Win), (20, -20));
    assert_eq!(calc_change(2400, 2400, Score::Win), (5, -5));
}

#[test]
fn half_points_round_away_from_zero() {
    assert_eq!(calc_change(2401, 2401, Score::Win), (3, -3));
    assert_eq!(calc_change(2401, 2401, Score::Loss), (-3, 3));
}

#[test]
fn close_ratings() {
    assert_eq!(calc_change(1000, 1010, Score::Win), (31, -21));
    assert_eq!(calc_change(1010, 1000, Score::Loss), (-21, 31));
    assert_eq!(calc_change(1000, 1010, Score::Draw), (1, -1));
    assert_eq!(calc_change(1000, 1100, Score::Draw), (8, -6));
}

#[test]
fn distant_ratings() {
    assert_eq!(calc_change(1000, 1300, Score::Win), (51, -30));
    assert_eq!(calc_change(1300, 1000, Score::Loss), (-30, 51));
    assert_eq!(calc_change(1000, 1400, Score::Win), (55, -32));
    assert_eq!(calc_change(1400, 1000, Score::Win), (3, -5));
    assert_eq!(calc_change(2500, 800, Score::Loss), (-5, 80));
    assert_eq!(calc_change(2500, 800, Score::Win), (0, 0));
    assert_eq!(calc_change(0, 5000, Score::Win), (80, -5));
}

#[test]
fn extreme_ratings_do_not_overflow() {
    assert_eq!(calc_change(i32::MIN, i32::MAX, Score::Win), (80, -5));
    assert_eq!(calc_change(i32::MAX, i32::MIN, Score::Loss), (-5, 80));
    assert_eq!(calc_change(i32::MAX, i32::MAX, Score::Draw), (0, 0));
}

#[test]
fn draw_between_equals_changes_nothing() {
    for rating in [-50, 0, 50, 99, 100, 800, 1000, 1500, 2400, 2401, 100_000] {
        assert_eq!(calc_change(rating, rating, Score::Draw), (0, 0));
    }
}

#[test]
fn same_k_conserves_points() {
    for (a, b) in [(1000, 1000), (900, 1000), (1250, 1390), (2500, 3000), (100, 799)] {
        for score in [Score::Loss, Score::Draw, Score::Win] {
            let (da, db) = calc_change(a, b, score);
            assert_eq!(da + db, 0, "{a} against {b}");
        }
    }
}

#[test]
fn same_k_below_floor_spares_the_loser() {
    // Both sides have K 80, yet the loser is below the floor and keeps its rating.
    assert_eq!(calc_change(50, 50, Score::Win), (40, 0));
    assert_eq!(calc_change(50, 50, Score::Loss), (0, 40));
}

#[test]
fn floor_clamp() {
    assert_eq!(calc_change(50, 60, Score::Loss), (0, 39));
    assert_eq!(calc_change(60, 50, Score::Win), (39, 0));
    assert_eq!(calc_change(99, 120, Score::Loss), (0, 38));
    // At the floor itself the loss counts.
    assert_eq!(calc_change(100, 120, Score::Loss), (-38, 38));
}

#[test]
fn changes_stay_within_k() {
    for a in (0..3000).step_by(137) {
        for b in (0..3000).step_by(211) {
            for score in [Score::Loss, Score::Draw, Score::Win] {
                let (da, db) = calc_change(a, b, score);
                assert!(i64::from(da.abs()) <= k_factor(a));
                assert!(i64::from(db.abs()) <= k_factor(b));
            }
        }
    }
}

#[test]
fn score_from_half_points() {
    assert_eq!(Score::from_half_points(0), Ok(Score::Loss));
    assert_eq!(Score::from_half_points(1), Ok(Score::Draw));
    assert_eq!(Score::from_half_points(2), Ok(Score::Win));
    assert_eq!(Score::from_half_points(3), Err(DbError::InvalidScore));
    assert_eq!(Score::from_half_points(u32::MAX), Err(DbError::InvalidScore));
}

#[test]
fn score_round_trip_and_opposite() {
    for score in [Score::Loss, Score::Draw, Score::Win] {
        assert_eq!(Score::from_half_points(score.to_half_points()), Ok(score));
        assert_eq!(score.opposite().opposite(), score);
        assert_eq!(score.to_half_points() + score.opposite().to_half_points(), 2);
    }
}
