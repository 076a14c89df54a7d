//! The store: titles, groups, criteria, ratings and the history of judgments, held in
//! memory. Callers load it row by row, ask it for contests and rankings, and record
//! judgments in it.

pub mod change;
pub mod query;
pub mod ranking;
pub mod record;
pub mod selector;
pub mod updater;

use vstd::prelude::*;

use crate::dto::{CriteriaGroup, MatchResult, Title};
use crate::error::{DbError, Fault};
use crate::model::{
    criterion_at, group_at, lemma_group_appended, lemma_rating_at, lemma_title_appended, match_at,
    pairs, rating_at, title_at, CriterionRow, Ledger, Rating,
};

verus! {

/// The tables of the rating engine.
#[derive(Debug)]
pub struct Store {
    titles: Vec<Title>,
    groups: Vec<CriteriaGroup>,
    criteria: Vec<CriterionRow>,
    ratings: Vec<Rating>,
    matches: Vec<MatchResult>,
}

impl View for Store {
    type V = Ledger;

    closed spec fn view(&self) -> Ledger {
        Ledger {
            titles: self.titles@,
            groups: self.groups@,
            criteria: self.criteria@,
            ratings: self.ratings@,
            matches: self.matches@,
        }
    }
}

impl Store {
    /// The store's invariant, stated on its contents.
    pub open spec fn wf(&self) -> bool {
        self@.wf()
    }

    /// Creates a store with no rows.
    pub fn new() -> (store: Store)
        ensures
            store.wf(),
            store@ == Ledger::empty(),
    {
        Store {
            titles: Vec::new(),
            groups: Vec::new(),
            criteria: Vec::new(),
            ratings: Vec::new(),
            matches: Vec::new(),
        }
    }

    /// Finds the row of title `id`.
    pub(crate) fn find_title(&self, id: i32) -> (found: Option<usize>)
        ensures
            match found {
                Some(i) => self@.is_title(i as int, id as int),
                None => !self@.has_title(id as int) && forall|i: int|
                    0 <= i < self@.titles.len() ==> self@.titles[i].id != id,
            },
    {
        let mut i: usize = 0;
        while i < self.titles.len()
            invariant
                i <= self.titles.len(),
                forall|k: int| 0 <= k < i ==> self.titles@[k].id != id,
            decreases self.titles.len() - i,
        {
            if self.titles[i].id == id {
                return Some(i);
            }
            i = i + 1;
        }
        assert forall|k: int| !#[trigger] title_at(self@.titles, k, id as int) by {}
        None
    }

    /// Finds the row of group `id`.
    pub(crate) fn find_group(&self, id: i32) -> (found: Option<usize>)
        ensures
            match found {
                Some(i) => self@.is_group(i as int, id as int),
                None => !self@.has_group(id as int) && forall|i: int|
                    0 <= i < self@.groups.len() ==> self@.groups[i].id != id,
            },
    {
        let mut i: usize = 0;
        while i < self.groups.len()
            invariant
                i <= self.groups.len(),
                forall|k: int| 0 <= k < i ==> self.groups@[k].id != id,
            decreases self.groups.len() - i,
        {
            if self.groups[i].id == id {
                return Some(i);
            }
            i = i + 1;
        }
        assert forall|k: int| !#[trigger] group_at(self@.groups, k, id as int) by {}
        None
    }

    /// Finds the row of criterion `id`.
    pub(crate) fn find_criterion(&self, id: i32) -> (found: Option<usize>)
        ensures
            match found {
                Some(i) => self@.is_criterion(i as int, id as int),
                None => !self@.has_criterion(id as int) && forall|i: int|
                    0 <= i < self@.criteria.len() ==> self@.criteria[i].id != id,
            },
    {
        let mut i: usize = 0;
        while i < self.criteria.len()
            invariant
                i <= self.criteria.len(),
                forall|k: int| 0 <= k < i ==> self.criteria@[k].id != id,
            decreases self.criteria.len() - i,
        {
            if self.criteria[i].id == id {
                return Some(i);
            }
            i = i + 1;
        }
        assert forall|k: int| !#[trigger] criterion_at(self@.criteria, k, id as int) by {}
        None
    }

    /// Finds the row that rates `title` under `group`.
    pub(crate) fn find_rating(&self, group: i32, title: i32) -> (found: Option<usize>)
        ensures
            match found {
                Some(i) => self@.is_rating(i as int, group as int, title as int),
                None => !self@.rated(group as int, title as int) && forall|i: int|
                    0 <= i < self@.ratings.len() ==> !(self@.ratings[i].group == group
                        && self@.ratings[i].title == title),
            },
    {
        let mut i: usize = 0;
        while i < self.ratings.len()
            invariant
                i <= self.ratings.len(),
                forall|k: int|
                    0 <= k < i ==> !(self.ratings@[k].group == group && self.ratings@[k].title
                        == title),
            decreases self.ratings.len() - i,
        {
            if self.ratings[i].group == group && self.ratings[i].title == title {
                return Some(i);
            }
            i = i + 1;
        }
        assert forall|k: int| !#[trigger] rating_at(self@.ratings, k, group as int, title as int) by {}
        None
    }

    /// Tells whether `a` and `b` have met under `group`, in either order.
    pub fn is_judged(&self, group: i32, a: i32, b: i32) -> (yes: bool)
        ensures
            yes == self@.judged(group as int, a as int, b as int),
    {
        let mut k: usize = 0;
        while k < self.matches.len()
            invariant
                k <= self.matches.len(),
                forall|j: int| 0 <= j < k ==> !pairs(self.matches@[j], group as int, a as int, b as int),
            decreases self.matches.len() - k,
        {
            let m = &self.matches[k];
            if m.criteria_group == group && ((m.a == a && m.b == b) || (m.a == b && m.b == a)) {
                assert(self@.is_match_of(k as int, group as int, a as int, b as int));
                return true;
            }
            k = k + 1;
        }
        assert forall|j: int| !#[trigger] match_at(self@.matches, j, group as int, a as int, b as int) by {}
        false
    }

    /// Reads the rating of `title` under `group`, if it is rated there.
    pub fn rating_of(&self, group: i32, title: i32) -> (elo: Option<i32>)
        requires
            self.wf(),
        ensures
            elo is Some <==> self@.rated(group as int, title as int),
            elo matches Some(r) ==> r == self@.rating(group as int, title as int),
    {
        match self.find_rating(group, title) {
            Some(i) => {
                proof {
                    lemma_rating_at(self@, i as int, group as int, title as int);
                }
                Some(self.ratings[i].elo)
            },
            None => None,
        }
    }

    /// Adds a title under the id it already has. An id that is taken is a conflict.
    pub fn insert_title(&mut self, title: Title) -> (outcome: Result<(), DbError>)
        requires
            old(self).wf(),
        ensures
            final(self).wf(),
            match outcome {
                Ok(()) => !old(self)@.has_title(title.id as int) && final(self)@ == (Ledger {
                    titles: old(self)@.titles.push(title),
                    ..old(self)@
                }) && final(self)@.has_title(title.id as int),
                Err(e) => e == DbError::PersistenceFailure(Fault::Conflict) && old(self)@.has_title(
                    title.id as int,
                ) && final(self)@ == old(self)@,
            },
    {
        match self.find_title(title.id) {
            Some(_) => Err(DbError::PersistenceFailure(Fault::Conflict)),
            None => {
                proof {
                    lemma_title_appended(self@, title);
                }
                self.titles.push(title);
                assert(self@ == (Ledger { titles: old(self)@.titles.push(title), ..old(self)@ }));
                Ok(())
            },
        }
    }

    /// Adds a group under the id it already has. An id that is taken is a conflict.
    pub fn insert_group(&mut self, group: CriteriaGroup) -> (outcome: Result<(), DbError>)
        requires
            old(self).wf(),
        ensures
            final(self).wf(),
            match outcome {
                Ok(()) => !old(self)@.has_group(group.id as int) && final(self)@ == (Ledger {
                    groups: old(self)@.groups.push(group),
                    ..old(self)@
                }) && final(self)@.has_group(group.id as int),
                Err(e) => e == DbError::PersistenceFailure(Fault::Conflict) && old(self)@.has_group(
                    group.id as int,
                ) && final(self)@ == old(self)@,
            },
    {
        match self.find_group(group.id) {
            Some(_) => Err(DbError::PersistenceFailure(Fault::Conflict)),
            None => {
                proof {
                    lemma_group_appended(self@, group);
                }
                self.groups.push(group);
                assert(self@ == (Ledger { groups: old(self)@.groups.push(group), ..old(self)@ }));
                Ok(())
            },
        }
    }

    /// Adds a criterion under the id it already has. A group that does not exist cannot
    /// take it; an id that is taken is a conflict.
    pub fn insert_criterion(&mut self, row: CriterionRow) -> (outcome: Result<(), DbError>)
        requires
            old(self).wf(),
        ensures
            final(self).wf(),
            match outcome {
                Ok(()) => old(self)@.has_group(row.group as int) && !old(self)@.has_criterion(
                    row.id as int,
                ) && final(self)@ == (Ledger {
                    criteria: old(self)@.criteria.push(row),
                    ..old(self)@
                }),
                Err(e) => final(self)@ == old(self)@ && e == DbError::PersistenceFailure(
                    if !old(self)@.has_group(row.group as int) {
                        Fault::NotFound
                    } else {
                        Fault::Conflict
                    },
                ) && (!old(self)@.has_group(row.group as int) || old(self)@.has_criterion(
                    row.id as int,
                )),
            },
    {
        if self.find_group(row.group).is_none() {
            return Err(DbError::PersistenceFailure(Fault::NotFound));
        }
        if self.find_criterion(row.id).is_some() {
            return Err(DbError::PersistenceFailure(Fault::Conflict));
        }
        self.criteria.push(row);
        assert(self@.titles == old(self)@.titles);
        assert(self@.groups == old(self)@.groups);
        assert(self@.ratings == old(self)@.ratings);
        assert(self@.matches == old(self)@.matches);
        Ok(())
    }

    /// Rates a title under a group with the given rating. Both must exist, and the title
    /// must not be rated under the group yet.
    pub fn insert_rating(&mut self, rating: Rating) -> (outcome: Result<(), DbError>)
        requires
            old(self).wf(),
        ensures
            final(self).wf(),
            match outcome {
                Ok(()) => old(self)@.has_title(rating.title as int) && old(self)@.has_group(
                    rating.group as int,
                ) && !old(self)@.rated(rating.group as int, rating.title as int) && final(self)@
                    == (Ledger { ratings: old(self)@.ratings.push(rating), ..old(self)@ })
                    && final(self)@.rated(rating.group as int, rating.title as int),
                Err(e) => final(self)@ == old(self)@ && e == DbError::PersistenceFailure(
                    if !old(self)@.has_title(rating.title as int) || !old(self)@.has_group(
                        rating.group as int,
                    ) {
                        Fault::NotFound
                    } else {
                        Fault::Conflict
                    },
                ) && (!old(self)@.has_title(rating.title as int) || !old(self)@.has_group(
                    rating.group as int,
                ) || old(self)@.rated(rating.group as int, rating.title as int)),
            },
    {
        if self.find_title(rating.title).is_none() || self.find_group(rating.group).is_none() {
            return Err(DbError::PersistenceFailure(Fault::NotFound));
        }
        if self.find_rating(rating.group, rating.title).is_some() {
            return Err(DbError::PersistenceFailure(Fault::Conflict));
        }
        self.ratings.push(rating);
        assert(rating_at(
            self@.ratings,
            old(self)@.ratings.len() as int,
            rating.group as int,
            rating.title as int,
        ));
        assert(self@.titles == old(self)@.titles);
        assert(self@.groups == old(self)@.groups);
        assert(self@.criteria == old(self)@.criteria);
        assert(self@.matches == old(self)@.matches);
        Ok(())
    }

    /// Adds a judgment to the history as it stands, without touching any rating: for
    /// loading a history that was recorded earlier. A title cannot meet itself, and a pair
    /// that has met under the group cannot meet again.
    pub fn insert_match(&mut self, m: MatchResult) -> (outcome: Result<(), DbError>)
        requires
            old(self).wf(),
        ensures
            final(self).wf(),
            match outcome {
                Ok(()) => m.a != m.b && !old(self)@.judged(
                    m.criteria_group as int,
                    m.a as int,
                    m.b as int,
                ) && final(self)@ == (Ledger { matches: old(self)@.matches.push(m), ..old(self)@ })
                    && final(self)@.judged(m.criteria_group as int, m.a as int, m.b as int),
                Err(e) => final(self)@ == old(self)@ && e == DbError::PersistenceFailure(
                    Fault::Conflict,
                ) && (m.a == m.b || old(self)@.judged(
                    m.criteria_group as int,
                    m.a as int,
                    m.b as int,
                )),
            },
    {
        if m.a == m.b || self.is_judged(m.criteria_group, m.a, m.b) {
            return Err(DbError::PersistenceFailure(Fault::Conflict));
        }
        proof {
            let g = m.criteria_group as int;
            assert forall|i: int| 0 <= i < self@.matches.len() implies !pairs(
                #[trigger] self@.matches[i],
                g,
                m.a as int,
                m.b as int,
            ) by {
                assert(!self@.is_match_of(i, g, m.a as int, m.b as int));
            }
        }
        self.matches.push(m);
        assert(match_at(
            self@.matches,
            old(self)@.matches.len() as int,
            m.criteria_group as int,
            m.a as int,
            m.b as int,
        ));
        assert(self@.titles == old(self)@.titles);
        assert(self@.groups == old(self)@.groups);
        assert(self@.criteria == old(self)@.criteria);
        assert(self@.ratings == old(self)@.ratings);
        Ok(())
    }

    /// Lists every group, in table order.
    pub fn all_groups(&self) -> (rows: Result<Vec<CriteriaGroup>, DbError>)
        ensures
            rows is Ok,
            rows->Ok_0@ == self@.groups,
    {
        let mut rows: Vec<CriteriaGroup> = Vec::new();
        let mut i: usize = 0;
        while i < self.groups.len()
            invariant
                i <= self.groups.len(),
                rows@ == self.groups@.take(i as int),
            decreases self.groups.len() - i,
        {
            rows.push(self.groups[i].clone());
            i = i + 1;
        }
        Ok(rows)
    }

    /// Lists every title, in table order.
    pub fn all_titles(&self) -> (rows: Result<Vec<Title>, DbError>)
        ensures
            rows is Ok,
            rows->Ok_0@ == self@.titles,
    {
        let mut rows: Vec<Title> = Vec::new();
        let mut i: usize = 0;
        while i < self.titles.len()
            invariant
                i <= self.titles.len(),
                rows@ == self.titles@.take(i as int),
            decreases self.titles.len() - i,
        {
            rows.push(self.titles[i].clone());
            i = i + 1;
        }
        Ok(rows)
    }
}

} // verus!
