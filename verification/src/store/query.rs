//! Listings read from the store.

use vstd::prelude::*;

use super::Store;
use crate::dto::{CriteriaGroup, CriteriaGroupItem, MatchResult, Title};
use crate::error::DbError;
use crate::model::{
    as_item, items_under, lemma_items_step, named_at, rated_under, CriterionRow, Rating,
};
use crate::seqs::{lemma_filter_empty, lemma_filter_step};

verus! {

impl Store {
    /// Lists the criteria of group `id`, in table order.
    pub fn criteria(&self, id: i32) -> (rows: Result<Vec<CriteriaGroupItem>, DbError>)
        ensures
            rows is Ok,
            rows->Ok_0@ == self@.criteria_of(id as int),
    {
        let mut rows: Vec<CriteriaGroupItem> = Vec::new();
        let mut i: usize = 0;
        proof {
            lemma_filter_empty(self.criteria@.take(0), crate::model::criterion_under(id as int));
            assert(rows@ =~= items_under(self.criteria@.take(0), id as int));
        }
        while i < self.criteria.len()
            invariant
                i <= self.criteria.len(),
                rows@ == items_under(self.criteria@.take(i as int), id as int),
            decreases self.criteria.len() - i,
        {
            proof {
                lemma_items_step(self.criteria@, id as int, i as int);
            }
            if self.criteria[i].group == id {
                let item = CriteriaGroupItem {
                    id: self.criteria[i].id,
                    name: self.criteria[i].name.clone(),
                };
                assert(item == as_item(self.criteria@[i as int]));
                rows.push(item);
            }
            i = i + 1;
        }
        assert(self.criteria@.take(i as int) =~= self.criteria@);
        Ok(rows)
    }

    /// Lists the groups under which title `title_id` is rated, in table order.
    pub fn groups_by_title(&self, title_id: i32) -> (rows: Result<Vec<CriteriaGroup>, DbError>)
        ensures
            rows is Ok,
            rows->Ok_0@ == self@.groups_of(title_id as int),
    {
        let ghost pred = self@.rates(title_id as int);
        let mut rows: Vec<CriteriaGroup> = Vec::new();
        let mut i: usize = 0;
        proof {
            lemma_filter_empty(self.groups@.take(0), pred);
        }
        while i < self.groups.len()
            invariant
                i <= self.groups.len(),
                pred == self@.rates(title_id as int),
                rows@ == self.groups@.take(i as int).filter(pred),
            decreases self.groups.len() - i,
        {
            proof {
                lemma_filter_step(self.groups@, pred, i as int);
            }
            if self.find_rating(self.groups[i].id, title_id).is_some() {
                rows.push(self.groups[i].clone());
            }
            i = i + 1;
        }
        assert(self.groups@.take(i as int) =~= self.groups@);
        Ok(rows)
    }

    /// Lists every rating, in table order.
    pub fn all_ratings(&self) -> (rows: Vec<Rating>)
        ensures
            rows@ == self@.ratings,
    {
        let mut rows: Vec<Rating> = Vec::new();
        let mut i: usize = 0;
        while i < self.ratings.len()
            invariant
                i <= self.ratings.len(),
                rows@ == self.ratings@.take(i as int),
            decreases self.ratings.len() - i,
        {
            rows.push(self.ratings[i]);
            i = i + 1;
        }
        rows
    }

    /// Lists every criterion as it is stored, in table order.
    pub fn all_criteria(&self) -> (rows: Vec<CriterionRow>)
        ensures
            rows@ == self@.criteria,
    {
        let mut rows: Vec<CriterionRow> = Vec::new();
        let mut i: usize = 0;
        while i < self.criteria.len()
            invariant
                i <= self.criteria.len(),
                rows@ == self.criteria@.take(i as int),
            decreases self.criteria.len() - i,
        {
            rows.push(self.criteria[i].clone());
            i = i + 1;
        }
        rows
    }

    /// Lists the history of judgments, the oldest first.
    pub fn history(&self) -> (rows: Vec<MatchResult>)
        ensures
            rows@ == self@.matches,
    {
        let mut rows: Vec<MatchResult> = Vec::new();
        let mut i: usize = 0;
        while i < self.matches.len()
            invariant
                i <= self.matches.len(),
                rows@ == self.matches@.take(i as int),
            decreases self.matches.len() - i,
        {
            rows.push(self.matches[i]);
            i = i + 1;
        }
        rows
    }

    /// Lists the titles rated under group `id`, in the order in which they were rated.
    pub fn titles_in_group(&self, id: i32) -> (rows: Result<Vec<Title>, DbError>)
        requires
            self.wf(),
        ensures
            rows is Ok,
            rows->Ok_0@.len() == self@.members(id as int),
            forall|k: int|
                0 <= k < rows->Ok_0@.len() ==> self@.rated(
                    id as int,
                    (#[trigger] rows->Ok_0@[k]).id as int,
                ) && self@.has_title(rows->Ok_0@[k].id as int) && rows->Ok_0@[k].name@
                    == self@.title_name(rows->Ok_0@[k].id as int),
    {
        let ghost pred = rated_under(id as int);
        let mut rows: Vec<Title> = Vec::new();
        let mut i: usize = 0;
        proof {
            lemma_filter_empty(self.ratings@.take(0), pred);
        }
        while i < self.ratings.len()
            invariant
                self.wf(),
                i <= self.ratings.len(),
                pred == rated_under(id as int),
                rows@.len() == self.ratings@.take(i as int).filter(pred).len(),
                forall|k: int|
                    0 <= k < rows@.len() ==> self@.rated(id as int, (#[trigger] rows@[k]).id as int)
                        && self@.has_title(rows@[k].id as int) && rows@[k].name@
                        == self@.title_name(rows@[k].id as int),
            decreases self.ratings.len() - i,
        {
            proof {
                lemma_filter_step(self.ratings@, pred, i as int);
            }
            if self.ratings[i].group == id {
                let title: i32 = self.ratings[i].title;
                match self.find_title(title) {
                    Some(t) => {
                        proof {
                            crate::model::lemma_title_at(self@, t as int, title as int);
                            assert(crate::model::rating_at(self@.ratings, i as int, id as int, title as int));
                        }
                        rows.push(Title { id: title, name: self.titles[t].name.clone() });
                    },
                    None => {
                        proof {
                            assert(self@.has_title(self@.ratings[i as int].title as int));
                            assert(false);
                        }
                    },
                }
            }
            i = i + 1;
        }
        assert(self.ratings@.take(i as int) =~= self.ratings@);
        Ok(rows)
    }

    /// Finds the first group with the given name.
    pub fn group_named(&self, name: &str) -> (id: Option<i32>)
        ensures
            match id {
                Some(g) => exists|i: int|
                    #[trigger] named_at(self@.groups, i, name@) && self@.groups[i].id == g,
                None => forall|i: int|
                    0 <= i < self@.groups.len() ==> (#[trigger] self@.groups[i]).name@ != name@,
            },
    {
        let wanted: String = name.to_owned();
        let mut i: usize = 0;
        while i < self.groups.len()
            invariant
                i <= self.groups.len(),
                wanted@ == name@,
                forall|j: int| 0 <= j < i ==> (#[trigger] self.groups@[j]).name@ != name@,
            decreases self.groups.len() - i,
        {
            if self.groups[i].name == wanted {
                assert(named_at(self@.groups, i as int, name@));
                return Some(self.groups[i].id);
            }
            i = i + 1;
        }
        None
    }

    /// Counts the titles rated under `group`.
    pub fn member_count(&self, group: i32) -> (count: usize)
        ensures
            count == self@.members(group as int),
    {
        let ghost pred = rated_under(group as int);
        let mut count: usize = 0;
        let mut i: usize = 0;
        proof {
            lemma_filter_empty(self.ratings@.take(0), pred);
        }
        while i < self.ratings.len()
            invariant
                i <= self.ratings.len(),
                pred == rated_under(group as int),
                count <= i,
                count == self.ratings@.take(i as int).filter(pred).len(),
            decreases self.ratings.len() - i,
        {
            proof {
                lemma_filter_step(self.ratings@, pred, i as int);
            }
            if self.ratings[i].group == group {
                count = count + 1;
            }
            i = i + 1;
        }
        assert(self.ratings@.take(i as int) =~= self.ratings@);
        count
    }

    /// Lists the groups with two or more rated titles, in table order: the groups among
    /// which an unpinned draw chooses.
    pub fn contested_groups(&self) -> (rows: Vec<CriteriaGroup>)
        ensures
            rows@ == self@.contested_groups(),
    {
        let ghost pred = self@.contested();
        let mut rows: Vec<CriteriaGroup> = Vec::new();
        let mut i: usize = 0;
        proof {
            lemma_filter_empty(self.groups@.take(0), pred);
        }
        while i < self.groups.len()
            invariant
                i <= self.groups.len(),
                pred == self@.contested(),
                rows@ == self.groups@.take(i as int).filter(pred),
            decreases self.groups.len() - i,
        {
            proof {
                lemma_filter_step(self.groups@, pred, i as int);
            }
            if self.member_count(self.groups[i].id) >= 2 {
                rows.push(self.groups[i].clone());
            }
            i = i + 1;
        }
        assert(self.groups@.take(i as int) =~= self.groups@);
        rows
    }
}

} // verus!
