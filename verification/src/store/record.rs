//! Requests that change the store, each saved as one record.

use vstd::prelude::*;

use super::Store;
use crate::dto::{
    CriteriaGroup, MatchResult, NewCriteriaGroup, NewCriterion, NewTitle, NewTitleCriteria, Title,
};
use crate::error::{DbError, Fault};
use crate::model::{
    criterion_at, criterion_ids, group_at, group_ids, is_next_id, lemma_criteria_changed,
    lemma_group_appended, lemma_rating_appended, lemma_title_appended, title_at, title_ids,
    CriterionRow, Ledger, Rating, BASELINE,
};

verus! {

/// A request that can be saved into a store of type `T`.
pub trait Record<T> {
    /// What the request asks of the store it is saved into.
    spec fn accepts(&self, connection: T) -> bool;

    /// What saving the request does: how the store after relates to the store before, and
    /// what is returned.
    spec fn saved(&self, before: T, after: T, outcome: Result<usize, DbError>) -> bool;

    /// Saves the request.
    fn save(&self, connection: &mut T) -> (outcome: Result<usize, DbError>)
        requires
            self.accepts(*old(connection)),
        ensures
            self.saved(*old(connection), *final(connection), outcome),
    ;
}

impl Store {
    /// Saves a request into this store.
    pub fn save<R: Record<Store>>(&mut self, record: &R) -> (outcome: Result<usize, DbError>)
        requires
            record.accepts(*old(self)),
        ensures
            record.saved(*old(self), *final(self), outcome),
    {
        record.save(self)
    }

    /// The id for the next title, unless the ids are used up.
    fn next_title_id(&self) -> (id: Option<i32>)
        ensures
            match id {
                Some(n) => is_next_id(title_ids(self@.titles), n as int),
                None => self@.has_title(i32::MAX as int),
            },
    {
        let mut top: i32 = 0;
        let mut i: usize = 0;
        while i < self.titles.len()
            invariant
                i <= self.titles.len(),
                top >= 0,
                forall|k: int| 0 <= k < i ==> self.titles@[k].id <= top,
                top == 0 || exists|k: int| 0 <= k < i && self.titles@[k].id == top,
            decreases self.titles.len() - i,
        {
            if self.titles[i].id > top {
                top = self.titles[i].id;
            }
            i = i + 1;
        }
        if top == i32::MAX {
            proof {
                let k = choose|k: int| 0 <= k < i && self.titles@[k].id == top;
                assert(title_at(self@.titles, k, i32::MAX as int));
            }
            None
        } else {
            proof {
                let ids = title_ids(self@.titles);
                if top != 0 {
                    let k = choose|k: int| 0 <= k < i && self.titles@[k].id == top;
                    assert(ids[k] == top);
                }
            }
            Some(top + 1)
        }
    }

    /// The id for the next group, unless the ids are used up.
    fn next_group_id(&self) -> (id: Option<i32>)
        ensures
            match id {
                Some(n) => is_next_id(group_ids(self@.groups), n as int),
                None => self@.has_group(i32::MAX as int),
            },
    {
        let mut top: i32 = 0;
        let mut i: usize = 0;
        while i < self.groups.len()
            invariant
                i <= self.groups.len(),
                top >= 0,
                forall|k: int| 0 <= k < i ==> self.groups@[k].id <= top,
                top == 0 || exists|k: int| 0 <= k < i && self.groups@[k].id == top,
            decreases self.groups.len() - i,
        {
            if self.groups[i].id > top {
                top = self.groups[i].id;
            }
            i = i + 1;
        }
        if top == i32::MAX {
            proof {
                let k = choose|k: int| 0 <= k < i && self.groups@[k].id == top;
                assert(group_at(self@.groups, k, i32::MAX as int));
            }
            None
        } else {
            proof {
                let ids = group_ids(self@.groups);
                if top != 0 {
                    let k = choose|k: int| 0 <= k < i && self.groups@[k].id == top;
                    assert(ids[k] == top);
                }
            }
            Some(top + 1)
        }
    }

    /// The id for the next criterion, unless the ids are used up.
    fn next_criterion_id(&self) -> (id: Option<i32>)
        ensures
            match id {
                Some(n) => is_next_id(criterion_ids(self@.criteria), n as int),
                None => self@.has_criterion(i32::MAX as int),
            },
    {
        let mut top: i32 = 0;
        let mut i: usize = 0;
        while i < self.criteria.len()
            invariant
                i <= self.criteria.len(),
                top >= 0,
                forall|k: int| 0 <= k < i ==> self.criteria@[k].id <= top,
                top == 0 || exists|k: int| 0 <= k < i && self.criteria@[k].id == top,
            decreases self.criteria.len() - i,
        {
            if self.criteria[i].id > top {
                top = self.criteria[i].id;
            }
            i = i + 1;
        }
        if top == i32::MAX {
            proof {
                let k = choose|k: int| 0 <= k < i && self.criteria@[k].id == top;
                assert(criterion_at(self@.criteria, k, i32::MAX as int));
            }
            None
        } else {
            proof {
                let ids = criterion_ids(self@.criteria);
                if top != 0 {
                    let k = choose|k: int| 0 <= k < i && self.criteria@[k].id == top;
                    assert(ids[k] == top);
                }
            }
            Some(top + 1)
        }
    }
}

impl Record<Store> for NewTitle {
    open spec fn accepts(&self, connection: Store) -> bool {
        connection.wf()
    }

    /// The title is appended under the next free id, which is returned; where the ids are
    /// used up nothing changes.
    open spec fn saved(&self, before: Store, after: Store, outcome: Result<usize, DbError>) -> bool {
        &&& after.wf()
        &&& match outcome {
            Ok(n) => is_next_id(title_ids(before@.titles), n as int) && n <= i32::MAX && after@
                == (Ledger {
                titles: before@.titles.push(Title { id: n as i32, name: self.name }),
                ..before@
            }),
            Err(e) => after@ == before@ && e == DbError::PersistenceFailure(Fault::OutOfRange)
                && before@.has_title(i32::MAX as int),
        }
    }

    fn save(&self, connection: &mut Store) -> (outcome: Result<usize, DbError>) {
        let id: i32 = match connection.next_title_id() {
            Some(n) => n,
            None => {
                return Err(DbError::PersistenceFailure(Fault::OutOfRange));
            },
        };
        let title = Title { id, name: self.name.clone() };
        proof {
            lemma_title_appended(connection@, title);
            assert forall|k: int| 0 <= k < connection@.titles.len() implies connection@.titles[k].id
                != id by {
                assert(title_ids(connection@.titles)[k] < id);
            }
        }
        connection.titles.push(title);
        proof {
            assert(connection@ == (Ledger {
                titles: old(connection)@.titles.push(title),
                ..old(connection)@
            }));
        }
        Ok(id as usize)
    }
}

impl Record<Store> for NewCriteriaGroup {
    open spec fn accepts(&self, connection: Store) -> bool {
        connection.wf()
    }

    /// The group is appended under the next free id, which is returned; where the ids are
    /// used up nothing changes.
    open spec fn saved(&self, before: Store, after: Store, outcome: Result<usize, DbError>) -> bool {
        &&& after.wf()
        &&& match outcome {
            Ok(n) => is_next_id(group_ids(before@.groups), n as int) && n <= i32::MAX && after@
                == (Ledger {
                groups: before@.groups.push(CriteriaGroup { id: n as i32, name: self.name }),
                ..before@
            }),
            Err(e) => after@ == before@ && e == DbError::PersistenceFailure(Fault::OutOfRange)
                && before@.has_group(i32::MAX as int),
        }
    }

    fn save(&self, connection: &mut Store) -> (outcome: Result<usize, DbError>) {
        let id: i32 = match connection.next_group_id() {
            Some(n) => n,
            None => {
                return Err(DbError::PersistenceFailure(Fault::OutOfRange));
            },
        };
        let group = CriteriaGroup { id, name: self.name.clone() };
        proof {
            lemma_group_appended(connection@, group);
            assert forall|k: int| 0 <= k < connection@.groups.len() implies connection@.groups[k].id
                != id by {
                assert(group_ids(connection@.groups)[k] < id);
            }
        }
        connection.groups.push(group);
        proof {
            assert(connection@ == (Ledger {
                groups: old(connection)@.groups.push(group),
                ..old(connection)@
            }));
        }
        Ok(id as usize)
    }
}

impl Record<Store> for NewCriterion {
    open spec fn accepts(&self, connection: Store) -> bool {
        connection.wf()
    }

    /// The criterion is appended to its group under the next free id, and one row is
    /// reported; a group that does not exist, or ids that are used up, leave the store as it
    /// was.
    open spec fn saved(&self, before: Store, after: Store, outcome: Result<usize, DbError>) -> bool {
        &&& after.wf()
        &&& match outcome {
            Ok(n) => n == 1 && before@.has_group(self.group as int) && exists|id: i32|
                #![trigger is_next_id(criterion_ids(before@.criteria), id as int)]
                is_next_id(criterion_ids(before@.criteria), id as int) && after@ == (Ledger {
                    criteria: before@.criteria.push(
                        CriterionRow { id, group: self.group, name: self.name },
                    ),
                    ..before@
                }),
            Err(e) => after@ == before@ && if !before@.has_group(self.group as int) {
                e == DbError::PersistenceFailure(Fault::NotFound)
            } else {
                e == DbError::PersistenceFailure(Fault::OutOfRange) && before@.has_criterion(
                    i32::MAX as int,
                )
            },
        }
    }

    fn save(&self, connection: &mut Store) -> (outcome: Result<usize, DbError>) {
        if connection.find_group(self.group).is_none() {
            return Err(DbError::PersistenceFailure(Fault::NotFound));
        }
        let id: i32 = match connection.next_criterion_id() {
            Some(n) => n,
            None => {
                return Err(DbError::PersistenceFailure(Fault::OutOfRange));
            },
        };
        let row = CriterionRow { id, group: self.group, name: self.name.clone() };
        proof {
            let criteria = connection@.criteria.push(row);
            assert forall|i: int, j: int| 0 <= i < j < criteria.len() implies criteria[i].id
                != criteria[j].id by {
                if j == criteria.len() - 1 {
                    assert(criterion_ids(connection@.criteria)[i] < id);
                }
            }
            assert forall|i: int| 0 <= i < criteria.len() implies connection@.has_group(
                #[trigger] criteria[i].group as int,
            ) by {
                if i < connection@.criteria.len() {
                    assert(connection@.has_group(connection@.criteria[i].group as int));
                }
            }
            lemma_criteria_changed(connection@, criteria);
        }
        connection.criteria.push(row);
        proof {
            assert(connection@ == (Ledger {
                criteria: old(connection)@.criteria.push(row),
                ..old(connection)@
            }));
        }
        Ok(1)
    }
}

impl Record<Store> for NewTitleCriteria {
    open spec fn accepts(&self, connection: Store) -> bool {
        connection.wf()
    }

    /// The title is rated under the group, starting from the baseline, and the number of the
    /// new rating row is returned. A title or group that does not exist is not found; a
    /// title that is rated under the group already is a conflict.
    open spec fn saved(&self, before: Store, after: Store, outcome: Result<usize, DbError>) -> bool {
        &&& after.wf()
        &&& match outcome {
            Ok(n) => before@.has_title(self.title as int) && before@.has_group(
                self.criteria as int,
            ) && !before@.rated(self.criteria as int, self.title as int) && n
                == before@.ratings.len() + 1 && after@ == (Ledger {
                ratings: before@.ratings.push(
                    Rating { title: self.title, group: self.criteria, elo: BASELINE },
                ),
                ..before@
            }),
            Err(e) => after@ == before@ && if !before@.has_title(self.title as int)
                || !before@.has_group(self.criteria as int) {
                e == DbError::PersistenceFailure(Fault::NotFound)
            } else {
                e == DbError::PersistenceFailure(Fault::Conflict) && before@.rated(
                    self.criteria as int,
                    self.title as int,
                )
            },
        }
    }

    fn save(&self, connection: &mut Store) -> (outcome: Result<usize, DbError>) {
        if connection.find_title(self.title).is_none() || connection.find_group(
            self.criteria,
        ).is_none() {
            return Err(DbError::PersistenceFailure(Fault::NotFound));
        }
        if connection.find_rating(self.criteria, self.title).is_some() {
            return Err(DbError::PersistenceFailure(Fault::Conflict));
        }
        let rating = Rating { title: self.title, group: self.criteria, elo: BASELINE };
        proof {
            lemma_rating_appended(connection@, rating);
        }
        connection.ratings.push(rating);
        proof {
            assert(connection@ == (Ledger {
                ratings: old(connection)@.ratings.push(rating),
                ..old(connection)@
            }));
        }
        Ok(connection.ratings.len())
    }
}

impl Record<Store> for MatchResult {
    open spec fn accepts(&self, connection: Store) -> bool {
        connection.wf()
    }

    /// The judgment joins the history and both ratings move by the changes it carries, or
    /// nothing changes at all.
    open spec fn saved(&self, before: Store, after: Store, outcome: Result<usize, DbError>) -> bool {
        &&& after.wf()
        &&& match outcome {
            Ok(n) => n == 1 && before@.match_fault(*self) is None && after@ == before@.recorded(
                *self,
            ),
            Err(e) => after@ == before@ && before@.match_fault(*self) is Some && e
                == DbError::PersistenceFailure(before@.match_fault(*self)->Some_0),
        }
    }

    fn save(&self, connection: &mut Store) -> (outcome: Result<usize, DbError>) {
        connection.save_match(self)
    }
}

} // verus!
