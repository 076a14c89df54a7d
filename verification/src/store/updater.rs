//! Recording judgments: the match record and both rating changes, all or nothing.

use vstd::prelude::*;

use super::Store;
use crate::dto::{Contest, MatchResult};
use crate::elo::{calc_change, Score};
use crate::error::{DbError, Fault};
use crate::model::{lemma_rating_at, lemma_recorded, Rating};

verus! {

impl Store {
    /// Records the judgment `m` with the rating changes it carries: the record joins the
    /// history and both ratings move, or, where the store cannot take the judgment, nothing
    /// changes at all. Returns the number of judgments recorded, which is one.
    pub fn save_match(&mut self, m: &MatchResult) -> (outcome: Result<usize, DbError>)
        requires
            old(self).wf(),
        ensures
            final(self).wf(),
            match outcome {
                Ok(n) => n == 1 && old(self)@.match_fault(*m) is None && final(self)@ == old(
                    self,
                )@.recorded(*m),
                Err(e) => final(self)@ == old(self)@ && old(self)@.match_fault(*m) is Some && e
                    == DbError::PersistenceFailure(old(self)@.match_fault(*m)->Some_0),
            },
    {
        let group: i32 = m.criteria_group;
        let ia: usize = match self.find_rating(group, m.a) {
            Some(i) => i,
            None => {
                return Err(DbError::PersistenceFailure(Fault::NotFound));
            },
        };
        let ib: usize = match self.find_rating(group, m.b) {
            Some(i) => i,
            None => {
                return Err(DbError::PersistenceFailure(Fault::NotFound));
            },
        };
        proof {
            lemma_rating_at(self@, ia as int, group as int, m.a as int);
            lemma_rating_at(self@, ib as int, group as int, m.b as int);
        }
        if m.a == m.b || self.is_judged(group, m.a, m.b) {
            return Err(DbError::PersistenceFailure(Fault::Conflict));
        }
        let new_a: i32 = match self.ratings[ia].elo.checked_add(m.elo_change.0) {
            Some(r) => r,
            None => {
                return Err(DbError::PersistenceFailure(Fault::OutOfRange));
            },
        };
        let new_b: i32 = match self.ratings[ib].elo.checked_add(m.elo_change.1) {
            Some(r) => r,
            None => {
                return Err(DbError::PersistenceFailure(Fault::OutOfRange));
            },
        };
        proof {
            lemma_recorded(self@, *m);
        }
        let row_a = Rating { title: m.a, group, elo: new_a };
        let row_b = Rating { title: m.b, group, elo: new_b };
        self.ratings.set(ia, row_a);
        self.ratings.set(ib, row_b);
        self.matches.push(*m);
        proof {
            let want = old(self)@.recorded(*m);
            assert(self@.ratings.len() == want.ratings.len());
            assert forall|i: int| 0 <= i < want.ratings.len() implies self@.ratings[i]
                == want.ratings[i] by {
                if i != ia as int && i != ib as int {
                    assert(!(old(self)@.ratings[i].group == old(self)@.ratings[ia as int].group
                        && old(self)@.ratings[i].title == old(self)@.ratings[ia as int].title));
                    assert(!(old(self)@.ratings[i].group == old(self)@.ratings[ib as int].group
                        && old(self)@.ratings[i].title == old(self)@.ratings[ib as int].title));
                }
            }
            assert(self@.ratings =~= want.ratings);
            assert(self@.matches =~= want.matches);
            assert(self@.titles == want.titles);
            assert(self@.groups == want.groups);
            assert(self@.criteria == want.criteria);
            assert(self@ == want);
        }
        Ok(1)
    }

    /// Records that contestant `a` of `contest` scored `half_points` half points against
    /// contestant `b`: 0 for a loss, 1 for a draw, 2 for a win. Any other score is refused as
    /// `InvalidScore` before anything is written. Both rating changes follow from the ratings
    /// that the store holds at this moment; they are stored together with the record of the
    /// judgment, or, on a failure, not at all.
    pub fn record_result(&mut self, contest: &Contest, half_points: u32) -> (outcome: Result<
        (),
        DbError,
    >)
        requires
            old(self).wf(),
        ensures
            final(self).wf(),
            half_points > 2 ==> outcome == Err::<(), DbError>(DbError::InvalidScore) && final(self)@
                == old(self)@,
            half_points <= 2 ==> {
                let m = old(self)@.judgment(
                    contest.criterion.group as int,
                    contest.criterion.id as int,
                    contest.a.id as int,
                    contest.b.id as int,
                    Score::of_half_points(half_points as int),
                );
                match outcome {
                    Ok(()) => old(self)@.match_fault(m) is None && final(self)@ == old(
                        self,
                    )@.recorded(m),
                    Err(e) => final(self)@ == old(self)@ && old(self)@.match_fault(m) is Some && e
                        == DbError::PersistenceFailure(old(self)@.match_fault(m)->Some_0),
                }
            },
    {
        let score: Score = match Score::from_half_points(half_points) {
            Ok(s) => s,
            Err(e) => {
                return Err(e);
            },
        };
        let group: i32 = contest.criterion.group;
        let elo_a: i32 = match self.rating_of(group, contest.a.id) {
            Some(r) => r,
            None => {
                return Err(DbError::PersistenceFailure(Fault::NotFound));
            },
        };
        let elo_b: i32 = match self.rating_of(group, contest.b.id) {
            Some(r) => r,
            None => {
                return Err(DbError::PersistenceFailure(Fault::NotFound));
            },
        };
        let m = MatchResult {
            criteria_group: group,
            criterion: contest.criterion.id,
            a: contest.a.id,
            b: contest.b.id,
            score,
            elo_change: calc_change(elo_a, elo_b, score),
        };
        proof {
            crate::elo::lemma_change_bounded_by_k(elo_a as int, elo_b as int, score);
            crate::elo::lemma_change_bounded_by_k(elo_b as int, elo_a as int, score.reversed());
        }
        match self.save_match(&m) {
            Ok(_) => Ok(()),
            Err(e) => Err(e),
        }
    }
}

} // verus!
