use critic::dto::{
    Contest, Contestant, CriteriaGroup, Criterion, DeleteCriteriaGroup, DeleteCriterion,
    DeleteTitle, DeleteTitleCriteria, GroupAddToTiles, MatchResult, NewCriteriaGroup, NewCriterion, NewTitle, NewTitleCriteria,
    Title, TopRow, UpdateCriteriaGroup, UpdateCriterion, UpdateTitle,
};
use critic::elo::Score;
use critic::error::{DbError, Fault};
use critic::lists::{all_groups, all_titles, criteria, groups_by_title, top_rows};
use critic::model::{CriterionRow, Rating, BASELINE};
use critic::seed::{c, default_criteria, e, entries, seeded};
use critic::store::record::Record;
use critic::store::Store;

fn title(id: i32, name: &str) -> Title {
    Title { id, name: name.to_string() }
}

fn group(id: i32, name: &str) -> CriteriaGroup {
    CriteriaGroup { id, name: name.to_string() }
}

/// One group "Gameplay" (id 1, criterion 7 "Fun") with the given titles and ratings.
fn one_group(rated: &[(i32, &str, i32)]) -> Store {
    let mut store = Store::new();
    store.insert_group(group(1, "Gameplay")).unwrap();
    store
        .insert_criterion(CriterionRow { id: 7, group: 1, name: "Fun".to_string() })
        .unwrap();
    for (id, name, elo) in rated {
        store.insert_title(title(*id, name)).unwrap();
        store.insert_rating(Rating { title: *id, group: 1, elo: *elo }).unwrap();
    }
    store
}

fn pair(contest: &Contest) -> (i32, i32) {
    (contest.a.id, contest.b.id)
}

fn names(rows: &[TopRow]) -> Vec<String> {
    rows.iter().map(|r| r.entry.clone()).collect()
}

#[test]
fn closest_pair_is_drawn_first() {
    let store = one_group(&[(1, "A", 1000), (2, "B", 1010), (3, "C", 1300)]);
    let contest = store.next_contest_in(1).unwrap();
    assert_eq!(pair(&contest), (1, 2));
    assert_eq!(
        contest,
        Contest {
            criterion: Criterion {
                group: 1,
                id: 7,
                name: "Fun".to_string(),
                group_name: "Gameplay".to_string(),
            },
            a: Contestant { id: 1, name: "A".to_string(), elo: 1000 },
            b: Contestant { id: 2, name: "B".to_string(), elo: 1010 },
        }
    );
}

#[test]
fn contestant_a_has_the_lower_id_whatever_the_table_order() {
    let store = one_group(&[(9, "Z", 1010), (4, "Y", 1000), (6, "X", 1300)]);
    let contest = store.next_contest_in(1).unwrap();
    assert_eq!(pair(&contest), (4, 9));
    assert_eq!(contest.a.elo, 1000);
    assert_eq!(contest.b.elo, 1010);
}

#[test]
fn equal_gaps_go_to_the_lowest_ids() {
    let store = one_group(&[(3, "C", 1020), (1, "A", 1000), (2, "B", 1010), (4, "D", 1030)]);
    assert_eq!(pair(&store.next_contest_in(1).unwrap()), (1, 2));
    let mut store = store;
    store.record_result(&store.next_contest_in(1).unwrap(), 1).unwrap();
    // A draw at 1000 against 1010 moves the ratings to 1001 and 1009.
    assert_eq!(store.rating_of(1, 1), Some(1001));
    assert_eq!(store.rating_of(1, 2), Some(1009));
    // Now 3 and 4 are 10 apart, 2 and 3 are 11 apart.
    assert_eq!(pair(&store.next_contest_in(1).unwrap()), (3, 4));
}

#[test]
fn no_rematch_in_either_order() {
    let mut store = one_group(&[(1, "A", 1000), (2, "B", 1010), (3, "C", 1300)]);
    let first = store.next_contest_in(1).unwrap();
    store.record_result(&first, 2).unwrap();
    assert!(store.is_judged(1, 1, 2));
    assert!(store.is_judged(1, 2, 1));
    let mut seen = vec![pair(&first)];
    while let Ok(contest) = store.next_contest_in(1) {
        let drawn = pair(&contest);
        assert!(!seen.contains(&drawn));
        assert!(!seen.contains(&(drawn.1, drawn.0)));
        seen.push(drawn);
        store.record_result(&contest, 0).unwrap();
    }
    // Three titles make three pairs, and no more.
    assert_eq!(seen.len(), 3);
    assert_eq!(store.next_contest_in(1), Err(DbError::NoEligiblePair));
}

#[test]
fn recording_the_swapped_pair_is_refused() {
    let mut store = one_group(&[(1, "A", 1000), (2, "B", 1010)]);
    let contest = store.next_contest_in(1).unwrap();
    store.record_result(&contest, 2).unwrap();
    let swapped = Contest { criterion: contest.criterion.clone(), a: contest.b, b: contest.a };
    assert_eq!(
        store.record_result(&swapped, 0),
        Err(DbError::PersistenceFailure(Fault::Conflict))
    );
}

#[test]
fn two_titles_are_exhausted_after_one_judgment() {
    let mut store = one_group(&[(1, "A", 1000), (2, "B", 1000)]);
    let contest = store.next_contest(Some(1), 0).unwrap();
    store.record_result(&contest, 1).unwrap();
    assert_eq!(store.next_contest(Some(1), 0), Err(DbError::NoEligiblePair));
    assert_eq!(store.next_contest_in(1), Err(DbError::NoEligiblePair));
}

#[test]
fn groups_with_fewer_than_two_titles_have_no_contest() {
    let store = one_group(&[(1, "A", 1000)]);
    assert_eq!(store.next_contest_in(1), Err(DbError::NoEligiblePair));
    assert_eq!(store.next_contest(None, 5), Err(DbError::NoEligiblePair));
    assert_eq!(Store::new().next_contest(None, 0), Err(DbError::NoEligiblePair));
    assert_eq!(store.next_contest_in(99), Err(DbError::NoEligiblePair));
}

#[test]
fn a_group_without_criteria_shows_a_blank_criterion() {
    let mut store = Store::new();
    store.insert_group(group(3, "Story")).unwrap();
    store.insert_title(title(1, "A")).unwrap();
    store.insert_title(title(2, "B")).unwrap();
    store.insert_rating(Rating { title: 1, group: 3, elo: 1000 }).unwrap();
    store.insert_rating(Rating { title: 2, group: 3, elo: 900 }).unwrap();
    let contest = store.next_contest_in(3).unwrap();
    assert_eq!(contest.criterion.id, 0);
    assert_eq!(contest.criterion.name, "");
    assert_eq!(contest.criterion.group, 3);
    assert_eq!(contest.criterion.group_name, "Story");
}

#[test]
fn unpinned_draw_picks_among_contested_groups() {
    let mut store = Store::new();
    for (id, name) in [(1, "Solo"), (2, "Duo"), (3, "Trio")] {
        store.insert_group(group(id, name)).unwrap();
    }
    for id in 1..=3 {
        store.insert_title(title(id, "T")).unwrap();
    }
    store.insert_rating(Rating { title: 1, group: 1, elo: 1000 }).unwrap();
    for t in 1..=2 {
        store.insert_rating(Rating { title: t, group: 2, elo: 1000 }).unwrap();
    }
    for t in 1..=3 {
        store.insert_rating(Rating { title: t, group: 3, elo: 1000 }).unwrap();
    }
    assert_eq!(store.member_count(1), 1);
    assert_eq!(store.member_count(3), 3);
    let contested: Vec<i32> = store.contested_groups().iter().map(|g| g.id).collect();
    assert_eq!(contested, vec![2, 3]);
    assert_eq!(store.next_contest(None, 0).unwrap().criterion.group, 2);
    assert_eq!(store.next_contest(None, 1).unwrap().criterion.group, 3);
    assert_eq!(store.next_contest(None, 2).unwrap().criterion.group, 2);
    assert_eq!(store.next_contest(None, u64::MAX).unwrap().criterion.group, 3);
    // A pinned group is used as it is.
    assert_eq!(store.next_contest(Some(3), 0).unwrap().criterion.group, 3);
}

#[test]
fn an_exhausted_group_that_is_drawn_ends_the_draw() {
    let mut store = Store::new();
    store.insert_group(group(1, "Done")).unwrap();
    store.insert_group(group(2, "Open")).unwrap();
    for id in 1..=2 {
        store.insert_title(title(id, "T")).unwrap();
        store.insert_rating(Rating { title: id, group: 1, elo: 1000 }).unwrap();
        store.insert_rating(Rating { title: id, group: 2, elo: 1000 }).unwrap();
    }
    let contest = store.next_contest_in(1).unwrap();
    store.record_result(&contest, 2).unwrap();
    assert_eq!(store.next_contest(None, 0), Err(DbError::NoEligiblePair));
    assert!(store.next_contest(None, 1).is_ok());
}

#[test]
fn record_result_moves_both_ratings_and_keeps_the_record() {
    let mut store = one_group(&[(1, "A", 1000), (2, "B", 1010), (3, "C", 1300)]);
    let contest = store.next_contest_in(1).unwrap();
    assert_eq!(store.record_result(&contest, 2), Ok(()));
    assert_eq!(store.rating_of(1, 1), Some(1031));
    assert_eq!(store.rating_of(1, 2), Some(989));
    assert_eq!(store.rating_of(1, 3), Some(1300));
    assert!(store.is_judged(1, 1, 2));
    assert!(!store.is_judged(1, 1, 3));
    assert!(!store.is_judged(2, 1, 2));
}

#[test]
fn record_result_uses_the_ratings_the_store_holds() {
    let mut store = one_group(&[(1, "A", 1000), (2, "B", 1000)]);
    let mut contest = store.next_contest_in(1).unwrap();
    contest.a.elo = 2500;
    contest.b.elo = 0;
    store.record_result(&contest, 2).unwrap();
    assert_eq!(store.rating_of(1, 1), Some(1030));
    assert_eq!(store.rating_of(1, 2), Some(970));
}

#[test]
fn draw_between_equals_leaves_ratings() {
    let mut store = one_group(&[(1, "A", 1500), (2, "B", 1500)]);
    let contest = store.next_contest_in(1).unwrap();
    store.record_result(&contest, 1).unwrap();
    assert_eq!(store.rating_of(1, 1), Some(1500));
    assert_eq!(store.rating_of(1, 2), Some(1500));
    assert!(store.is_judged(1, 1, 2));
}

#[test]
fn floor_keeps_a_weak_loser_and_pays_the_winner() {
    let mut store = one_group(&[(1, "Weak", 50), (2, "Other", 60)]);
    let contest = store.next_contest_in(1).unwrap();
    store.record_result(&contest, 0).unwrap();
    assert_eq!(store.rating_of(1, 1), Some(50));
    assert_eq!(store.rating_of(1, 2), Some(99));
}

#[test]
fn invalid_score_is_refused_before_anything_is_written() {
    let mut store = one_group(&[(1, "A", 1000), (2, "B", 1010)]);
    let contest = store.next_contest_in(1).unwrap();
    assert_eq!(store.record_result(&contest, 3), Err(DbError::InvalidScore));
    assert_eq!(store.record_result(&contest, u32::MAX), Err(DbError::InvalidScore));
    assert_eq!(store.rating_of(1, 1), Some(1000));
    assert_eq!(store.rating_of(1, 2), Some(1010));
    assert!(!store.is_judged(1, 1, 2));
    assert_eq!(pair(&store.next_contest_in(1).unwrap()), (1, 2));
}

#[test]
fn a_failed_second_update_leaves_no_write_behind() {
    // The record and the first rating could be written; the second rating cannot.
    let mut store = one_group(&[(1, "A", 1000), (2, "B", i32::MAX)]);
    let m = MatchResult {
        criteria_group: 1,
        criterion: 7,
        a: 1,
        b: 2,
        score: Score::Loss,
        elo_change: (-30, 30),
    };
    assert_eq!(store.save_match(&m), Err(DbError::PersistenceFailure(Fault::OutOfRange)));
    assert_eq!(store.rating_of(1, 1), Some(1000));
    assert_eq!(store.rating_of(1, 2), Some(i32::MAX));
    assert!(!store.is_judged(1, 1, 2));
    assert_eq!(pair(&store.next_contest_in(1).unwrap()), (1, 2));
    // The same holds where the first update is the one that fails.
    let m = MatchResult { elo_change: (i32::MAX, 0), ..m };
    assert_eq!(store.save_match(&m), Err(DbError::PersistenceFailure(Fault::OutOfRange)));
    assert_eq!(store.rating_of(1, 1), Some(1000));
    assert!(!store.is_judged(1, 1, 2));
}

#[test]
fn a_judgment_of_an_unrated_title_is_not_found() {
    let mut store = one_group(&[(1, "A", 1000), (2, "B", 1010)]);
    store.insert_title(title(3, "C")).unwrap();
    let m = MatchResult {
        criteria_group: 1,
        criterion: 7,
        a: 1,
        b: 3,
        score: Score::Win,
        elo_change: (10, -10),
    };
    assert_eq!(store.save_match(&m), Err(DbError::PersistenceFailure(Fault::NotFound)));
    assert_eq!(store.rating_of(1, 1), Some(1000));
    let mut contest = store.next_contest_in(1).unwrap();
    contest.b.id = 3;
    assert_eq!(
        store.record_result(&contest, 2),
        Err(DbError::PersistenceFailure(Fault::NotFound))
    );
    let me = MatchResult { b: 1, ..m };
    assert_eq!(store.save_match(&me), Err(DbError::PersistenceFailure(Fault::Conflict)));
}

#[test]
fn save_match_applies_the_changes_it_carries() {
    let mut store = one_group(&[(1, "A", 1000), (2, "B", 1010)]);
    let m = MatchResult {
        criteria_group: 1,
        criterion: 7,
        a: 2,
        b: 1,
        score: Score::Draw,
        elo_change: (5, -7),
    };
    assert_eq!(store.save(&m), Ok(1));
    assert_eq!(store.rating_of(1, 2), Some(1015));
    assert_eq!(store.rating_of(1, 1), Some(993));
    assert_eq!(store.save(&m), Err(DbError::PersistenceFailure(Fault::Conflict)));
}

#[test]
fn pages_join() {
    let store =
        one_group(&[(1, "A", 1000), (2, "B", 1300), (3, "C", 900), (4, "D", 1100), (5, "E", 950)]);
    let first = store.top(None, 2, 0).unwrap();
    let second = store.top(None, 2, 1).unwrap();
    let both = store.top(None, 4, 0).unwrap();
    assert_eq!(names(&first), vec!["B", "D"]);
    assert_eq!(names(&second), vec!["A", "E"]);
    let mut joined = first.clone();
    joined.extend(second);
    assert_eq!(joined, both);
    assert_eq!(names(&store.top(None, 2, 2).unwrap()), vec!["C"]);
    assert!(store.top(None, 2, 3).unwrap().is_empty());
    assert!(store.top(None, 2, usize::MAX).unwrap().is_empty());
    assert!(store.top(None, usize::MAX, usize::MAX).unwrap().is_empty());
    assert!(store.top(None, 0, 0).unwrap().is_empty());
    assert_eq!(store.top(None, usize::MAX, 0).unwrap().len(), 5);
}

#[test]
fn ranking_lines_carry_names_and_ratings() {
    let store = one_group(&[(1, "A", 1000), (2, "B", 1300)]);
    assert_eq!(
        store.top(None, 10, 0).unwrap(),
        vec![
            TopRow { group: "Gameplay".to_string(), entry: "B".to_string(), elo: 1300 },
            TopRow { group: "Gameplay".to_string(), entry: "A".to_string(), elo: 1000 },
        ]
    );
}

#[test]
fn equal_ratings_rank_in_table_order() {
    let store = one_group(&[(5, "First", 1000), (1, "Second", 1000), (3, "Third", 1000)]);
    assert_eq!(names(&store.top(None, 10, 0).unwrap()), vec!["First", "Second", "Third"]);
}

#[test]
fn ranking_of_one_group() {
    let mut store = one_group(&[(1, "A", 1000), (2, "B", 1300)]);
    store.insert_group(group(2, "Story")).unwrap();
    store.insert_rating(Rating { title: 1, group: 2, elo: 1400 }).unwrap();
    assert_eq!(names(&store.top(Some("Story"), 10, 0).unwrap()), vec!["A"]);
    assert_eq!(names(&store.top(Some("Gameplay"), 10, 0).unwrap()), vec!["B", "A"]);
    assert_eq!(names(&store.top(None, 10, 0).unwrap()), vec!["A", "B", "A"]);
    assert!(store.top(Some("Nothing"), 10, 0).unwrap().is_empty());
    assert_eq!(names(&top_rows(&store, "", 0)), vec!["A", "B", "A"]);
    assert_eq!(names(&top_rows(&store, "Story", 0)), vec!["A"]);
    assert!(top_rows(&store, "", 1).is_empty());
}

#[test]
fn ranking_follows_judgments() {
    let mut store = one_group(&[(1, "A", 1000), (2, "B", 1010)]);
    assert_eq!(names(&store.top(None, 10, 0).unwrap()), vec!["B", "A"]);
    let contest = store.next_contest_in(1).unwrap();
    store.record_result(&contest, 2).unwrap();
    assert_eq!(names(&store.top(None, 10, 0).unwrap()), vec!["A", "B"]);
}

#[test]
fn top_rows_reads_thirty_lines() {
    let mut store = Store::new();
    store.insert_group(group(1, "G")).unwrap();
    for id in 1..=35 {
        store.insert_title(title(id, "T")).unwrap();
        store.insert_rating(Rating { title: id, group: 1, elo: id }).unwrap();
    }
    let first = top_rows(&store, "", 0);
    assert_eq!(first.len(), 30);
    assert_eq!(first[0].elo, 35);
    assert_eq!(first[29].elo, 6);
    assert_eq!(top_rows(&store, "", 1).len(), 5);
}

#[test]
fn inserts_keep_ids_unique() {
    let mut store = Store::new();
    assert_eq!(store.insert_title(title(1, "A")), Ok(()));
    assert_eq!(
        store.insert_title(title(1, "Again")),
        Err(DbError::PersistenceFailure(Fault::Conflict))
    );
    assert_eq!(store.insert_group(group(1, "G")), Ok(()));
    assert_eq!(
        store.insert_group(group(1, "H")),
        Err(DbError::PersistenceFailure(Fault::Conflict))
    );
    let row = CriterionRow { id: 1, group: 1, name: "C".to_string() };
    assert_eq!(store.insert_criterion(row.clone()), Ok(()));
    assert_eq!(
        store.insert_criterion(row.clone()),
        Err(DbError::PersistenceFailure(Fault::Conflict))
    );
    assert_eq!(
        store.insert_criterion(CriterionRow { id: 2, group: 9, ..row }),
        Err(DbError::PersistenceFailure(Fault::NotFound))
    );
    let rating = Rating { title: 1, group: 1, elo: 1000 };
    assert_eq!(store.insert_rating(rating), Ok(()));
    assert_eq!(store.insert_rating(rating), Err(DbError::PersistenceFailure(Fault::Conflict)));
    assert_eq!(
        store.insert_rating(Rating { title: 2, ..rating }),
        Err(DbError::PersistenceFailure(Fault::NotFound))
    );
    assert_eq!(
        store.insert_rating(Rating { group: 2, ..rating }),
        Err(DbError::PersistenceFailure(Fault::NotFound))
    );
    assert_eq!(all_titles(&store), vec![title(1, "A")]);
    assert_eq!(all_groups(&store), vec![group(1, "G")]);
}

#[test]
fn loaded_history_blocks_rematches() {
    let mut store = one_group(&[(1, "A", 1000), (2, "B", 1010), (3, "C", 1300)]);
    let m = MatchResult {
        criteria_group: 1,
        criterion: 7,
        a: 2,
        b: 1,
        score: Score::Win,
        elo_change: (0, 0),
    };
    assert_eq!(store.insert_match(m), Ok(()));
    assert_eq!(store.insert_match(m), Err(DbError::PersistenceFailure(Fault::Conflict)));
    assert_eq!(
        store.insert_match(MatchResult { a: 1, b: 2, ..m }),
        Err(DbError::PersistenceFailure(Fault::Conflict))
    );
    assert_eq!(
        store.insert_match(MatchResult { a: 3, b: 3, ..m }),
        Err(DbError::PersistenceFailure(Fault::Conflict))
    );
    // Loading the history moved no rating.
    assert_eq!(store.rating_of(1, 1), Some(1000));
    assert_eq!(pair(&store.next_contest_in(1).unwrap()), (2, 3));
}

#[test]
fn new_rows_get_the_next_id() {
    let mut store = Store::new();
    assert_eq!(store.save(&NewTitle { name: "A".to_string() }), Ok(1));
    assert_eq!(store.save(&NewTitle { name: "B".to_string() }), Ok(2));
    store.insert_title(title(10, "J")).unwrap();
    assert_eq!(store.save(&NewTitle { name: "K".to_string() }), Ok(11));
    assert_eq!(store.save(&NewCriteriaGroup { name: "G".to_string() }), Ok(1));
    assert_eq!(store.save(&NewCriterion { group: 1, name: "C".to_string() }), Ok(1));
    assert_eq!(store.save(&NewCriterion { group: 1, name: "D".to_string() }), Ok(1));
    assert_eq!(
        store.save(&NewCriterion { group: 5, name: "E".to_string() }),
        Err(DbError::PersistenceFailure(Fault::NotFound))
    );
    let listed: Vec<(i32, String)> =
        criteria(&store, 1).into_iter().map(|c| (c.id, c.name)).collect();
    assert_eq!(listed, vec![(1, "C".to_string()), (2, "D".to_string())]);
    assert!(criteria(&store, 2).is_empty());
    store.insert_title(title(i32::MAX, "Last")).unwrap();
    assert_eq!(
        NewTitle { name: "Over".to_string() }.save(&mut store),
        Err(DbError::PersistenceFailure(Fault::OutOfRange))
    );
}

#[test]
fn rating_a_title_starts_from_the_baseline() {
    let mut store = Store::new();
    store.save(&NewTitle { name: "A".to_string() }).unwrap();
    store.save(&NewCriteriaGroup { name: "G".to_string() }).unwrap();
    store.save(&NewCriteriaGroup { name: "H".to_string() }).unwrap();
    assert_eq!(BASELINE, 1000);
    assert_eq!(store.rating_of(1, 1), None);
    assert_eq!(store.save(&NewTitleCriteria { title: 1, criteria: 1 }), Ok(1));
    assert_eq!(store.save(&NewTitleCriteria { title: 1, criteria: 2 }), Ok(2));
    assert_eq!(store.rating_of(1, 1), Some(1000));
    assert_eq!(
        store.save(&NewTitleCriteria { title: 1, criteria: 1 }),
        Err(DbError::PersistenceFailure(Fault::Conflict))
    );
    assert_eq!(
        store.save(&NewTitleCriteria { title: 2, criteria: 1 }),
        Err(DbError::PersistenceFailure(Fault::NotFound))
    );
    assert_eq!(
        store.save(&NewTitleCriteria { title: 1, criteria: 3 }),
        Err(DbError::PersistenceFailure(Fault::NotFound))
    );
    assert_eq!(groups_by_title(&store, 1), vec![group(1, "G"), group(2, "H")]);
    assert!(groups_by_title(&store, 2).is_empty());
}

#[test]
fn renames() {
    let mut store = one_group(&[(1, "A", 1000), (2, "B", 1010)]);
    assert_eq!(store.save(&UpdateTitle { id: 2, name: "Bee".to_string() }), Ok(1));
    assert_eq!(store.save(&UpdateTitle { id: 9, name: "None".to_string() }), Ok(1));
    assert_eq!(all_titles(&store), vec![title(1, "A"), title(2, "Bee")]);
    assert_eq!(store.save(&UpdateCriteriaGroup { id: 1, name: "Play".to_string() }), Ok(1));
    assert_eq!(store.save(&UpdateCriteriaGroup { id: 9, name: "None".to_string() }), Ok(0));
    assert_eq!(store.save(&UpdateCriterion { id: 7, name: "Joy".to_string() }), Ok(1));
    assert_eq!(store.save(&UpdateCriterion { id: 8, name: "None".to_string() }), Ok(0));
    let contest = store.next_contest_in(1).unwrap();
    assert_eq!(contest.b.name, "Bee");
    assert_eq!(contest.criterion.group_name, "Play");
    assert_eq!(contest.criterion.name, "Joy");
    assert_eq!(store.group_named("Play"), Some(1));
    assert_eq!(store.group_named("Gameplay"), None);
}

#[test]
fn removing_groups_and_criteria() {
    let mut store = one_group(&[(1, "A", 1000), (2, "B", 1010)]);
    store.insert_group(group(2, "Empty")).unwrap();
    store
        .insert_criterion(CriterionRow { id: 8, group: 1, name: "Unused".to_string() })
        .unwrap();
    assert_eq!(store.save(&DeleteCriteriaGroup { id: 2 }), Ok(1));
    assert_eq!(store.save(&DeleteCriteriaGroup { id: 2 }), Ok(0));
    assert_eq!(
        store.save(&DeleteCriteriaGroup { id: 1 }),
        Err(DbError::PersistenceFailure(Fault::Conflict))
    );
    assert_eq!(all_groups(&store), vec![group(1, "Gameplay")]);
    let contest = store.next_contest_in(1).unwrap();
    store.record_result(&contest, 2).unwrap();
    assert_eq!(
        store.save(&DeleteCriterion { id: 7 }),
        Err(DbError::PersistenceFailure(Fault::Conflict))
    );
    assert_eq!(store.save(&DeleteCriterion { id: 8 }), Ok(1));
    assert_eq!(store.save(&DeleteCriterion { id: 8 }), Ok(0));
    assert_eq!(criteria(&store, 1).len(), 1);
}

#[test]
fn a_group_is_pushed_to_the_titles_that_lack_it() {
    let mut store = one_group(&[(1, "A", 1200), (2, "B", 1010)]);
    store.insert_title(title(3, "C")).unwrap();
    store.insert_title(title(4, "D")).unwrap();
    assert_eq!(store.save(&GroupAddToTiles { id: 1 }), Ok(2));
    assert_eq!(store.rating_of(1, 1), Some(1200));
    assert_eq!(store.rating_of(1, 3), Some(1000));
    assert_eq!(store.rating_of(1, 4), Some(1000));
    assert_eq!(store.member_count(1), 4);
    assert_eq!(store.save(&GroupAddToTiles { id: 1 }), Ok(0));
    assert_eq!(
        store.save(&GroupAddToTiles { id: 5 }),
        Err(DbError::PersistenceFailure(Fault::NotFound))
    );
}

#[test]
fn seed_helpers_keep_what_they_are_given() {
    let entry = e("Diablo", &["arpg"]);
    assert_eq!(entry.name, "Diablo");
    assert_eq!(entry.groups, &["arpg"]);
    let group = c("General", &["Gameplay", "Story"]);
    assert_eq!(group.name, "General");
    assert_eq!(group.sub_criteria, &["Gameplay", "Story"]);
}

#[test]
fn the_seed_builds_a_collection() {
    let groups = default_criteria();
    let titles = entries();
    assert_eq!(groups.len(), 11);
    assert_eq!(titles.len(), 66);
    assert_eq!(groups[0].sub_criteria.len(), 11);
    assert_eq!(titles[65].name, "Path of Exile 2");
    let store = seeded(&groups, &titles).unwrap();
    assert_eq!(all_groups(&store).len(), 11);
    assert_eq!(all_titles(&store).len(), 66);
    assert_eq!(all_titles(&store)[0], title(1, "Legend of Zelda"));
    assert_eq!(all_groups(&store)[1], group(2, "arpg"));
    assert_eq!(criteria(&store, 1).len(), 11);
    assert_eq!(criteria(&store, 2).len(), 1);
    // "Legend of Zelda" is an action adventure and an arpg.
    assert_eq!(groups_by_title(&store, 1), vec![group(2, "arpg"), group(3, "Action Adventure")]);
    assert_eq!(store.rating_of(2, 1), Some(1000));
    assert_eq!(store.rating_of(1, 1), None);
    // Everything starts level, so the first pair of the lowest ids is drawn.
    let contest = store.next_contest(Some(2), 0).unwrap();
    assert_eq!(pair(&contest), (1, 2));
    assert_eq!(contest.criterion.name, "General");
    assert_eq!(top_rows(&store, "jrpg", 0).len(), 30);
}

#[test]
fn error_messages() {
    assert!(DbError::NoEligiblePair.is_exhaustion());
    assert!(!DbError::InvalidScore.is_exhaustion());
    assert_eq!(DbError::NoEligiblePair.message(), "nothing left to compare");
    assert_eq!(DbError::InvalidScore.message(), "score must be a loss, a draw or a win");
    assert_eq!(
        DbError::PersistenceFailure(Fault::NotFound).message(),
        "write failed: no such row"
    );
    assert_eq!(
        DbError::PersistenceFailure(Fault::Conflict).message(),
        "write failed: constraint violated"
    );
    assert_eq!(
        DbError::PersistenceFailure(Fault::OutOfRange).message(),
        "write failed: value out of range"
    );
}

#[test]
fn removing_titles_and_ratings() {
    let mut store = one_group(&[(1, "A", 1000), (2, "B", 1010), (3, "C", 1300)]);
    store.insert_title(title(4, "Loose")).unwrap();
    assert_eq!(store.save(&DeleteTitle { id: 4 }), Ok(1));
    assert_eq!(store.save(&DeleteTitle { id: 4 }), Ok(0));
    assert_eq!(
        store.save(&DeleteTitle { id: 3 }),
        Err(DbError::PersistenceFailure(Fault::Conflict))
    );
    let contest = store.next_contest_in(1).unwrap();
    store.record_result(&contest, 2).unwrap();
    assert_eq!(
        store.save(&DeleteTitleCriteria { title: 1, criteria: 1 }),
        Err(DbError::PersistenceFailure(Fault::Conflict))
    );
    assert_eq!(store.save(&DeleteTitleCriteria { title: 3, criteria: 1 }), Ok(1));
    assert_eq!(store.save(&DeleteTitleCriteria { title: 3, criteria: 1 }), Ok(0));
    assert_eq!(store.rating_of(1, 3), None);
    assert_eq!(store.save(&DeleteTitle { id: 3 }), Ok(1));
    assert_eq!(all_titles(&store), vec![title(1, "A"), title(2, "B")]);
    // The judged pair stays judged.
    assert_eq!(store.next_contest_in(1), Err(DbError::NoEligiblePair));
}

#[test]
fn tables_are_listed_in_order() {
    let mut store = one_group(&[(2, "B", 1010), (1, "A", 1000)]);
    assert_eq!(
        store.all_ratings(),
        vec![Rating { title: 2, group: 1, elo: 1010 }, Rating { title: 1, group: 1, elo: 1000 }]
    );
    assert_eq!(
        store.all_criteria(),
        vec![CriterionRow { id: 7, group: 1, name: "Fun".to_string() }]
    );
    assert_eq!(store.titles_in_group(1).unwrap(), vec![title(2, "B"), title(1, "A")]);
    assert!(store.titles_in_group(2).unwrap().is_empty());
    assert!(store.history().is_empty());
    let contest = store.next_contest_in(1).unwrap();
    store.record_result(&contest, 0).unwrap();
    assert_eq!(
        store.history(),
        vec![MatchResult {
            criteria_group: 1,
            criterion: 7,
            a: 1,
            b: 2,
            score: Score::Loss,
            elo_change: (-29, 19),
        }]
    );
}
