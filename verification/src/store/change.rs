//! Requests that rename or remove rows, and the request that rates every title under a
//! group.

use vstd::prelude::*;

use super::record::Record;
use super::Store;
use crate::dto::{
    CriteriaGroup, DeleteCriteriaGroup, DeleteCriterion, DeleteTitle, DeleteTitleCriteria,
    GroupAddToTiles, Title, UpdateCriteriaGroup, UpdateCriterion, UpdateTitle,
};
use crate::error::{DbError, Fault};
use crate::model::{
    baseline_of, criterion_at, criterion_in, criterion_in_use, fresh_ratings, group_in_use,
    has_judgments, judgment_of_at, judgment_with_at, lemma_criteria_changed, lemma_fresh_step,
    lemma_group_removed, lemma_groups_relabelled, lemma_rating_appended, lemma_rating_removed,
    lemma_title_removed, lemma_titles_relabelled, match_shown_at, match_under_at,
    rating_of_title_at, rating_under_at, title_at, title_in_use, unrated_under, CriterionRow,
    Ledger, Rating, BASELINE,
};

verus! {

impl Store {
    /// Tells whether any criterion, rating or judgment refers to group `id`.
    fn group_is_in_use(&self, id: i32) -> (yes: bool)
        ensures
            yes == group_in_use(self@, id as int),
            !yes ==> (forall|k: int|
                0 <= k < self@.criteria.len() ==> (#[trigger] self@.criteria[k]).group != id)
                && (forall|k: int|
                0 <= k < self@.ratings.len() ==> (#[trigger] self@.ratings[k]).group != id),
    {
        let mut i: usize = 0;
        while i < self.criteria.len()
            invariant
                i <= self.criteria.len(),
                forall|k: int| 0 <= k < i ==> self.criteria@[k].group != id,
            decreases self.criteria.len() - i,
        {
            if self.criteria[i].group == id {
                assert(criterion_in(self@.criteria, i as int, id as int));
                return true;
            }
            i = i + 1;
        }
        let mut j: usize = 0;
        while j < self.ratings.len()
            invariant
                j <= self.ratings.len(),
                forall|k: int| 0 <= k < j ==> self.ratings@[k].group != id,
            decreases self.ratings.len() - j,
        {
            if self.ratings[j].group == id {
                assert(rating_under_at(self@.ratings, j as int, id as int));
                return true;
            }
            j = j + 1;
        }
        let mut m: usize = 0;
        while m < self.matches.len()
            invariant
                m <= self.matches.len(),
                forall|k: int| 0 <= k < m ==> self.matches@[k].criteria_group != id,
            decreases self.matches.len() - m,
        {
            if self.matches[m].criteria_group == id {
                assert(match_under_at(self@.matches, m as int, id as int));
                return true;
            }
            m = m + 1;
        }
        assert forall|k: int| !#[trigger] criterion_in(self@.criteria, k, id as int) by {}
        assert forall|k: int| !#[trigger] rating_under_at(self@.ratings, k, id as int) by {}
        assert forall|k: int| !#[trigger] match_under_at(self@.matches, k, id as int) by {}
        false
    }

    /// Tells whether any judgment was shown under criterion `id`.
    fn criterion_is_in_use(&self, id: i32) -> (yes: bool)
        ensures
            yes == criterion_in_use(self@, id as int),
    {
        let mut m: usize = 0;
        while m < self.matches.len()
            invariant
                m <= self.matches.len(),
                forall|k: int| 0 <= k < m ==> self.matches@[k].criterion != id,
            decreases self.matches.len() - m,
        {
            if self.matches[m].criterion == id {
                assert(match_shown_at(self@.matches, m as int, id as int));
                return true;
            }
            m = m + 1;
        }
        assert forall|k: int| !#[trigger] match_shown_at(self@.matches, k, id as int) by {}
        false
    }
}

impl Store {
    /// Tells whether any rating or judgment refers to title `id`.
    fn title_is_in_use(&self, id: i32) -> (yes: bool)
        ensures
            yes == title_in_use(self@, id as int),
            !yes ==> forall|k: int|
                0 <= k < self@.ratings.len() ==> (#[trigger] self@.ratings[k]).title != id,
    {
        let mut j: usize = 0;
        while j < self.ratings.len()
            invariant
                j <= self.ratings.len(),
                forall|k: int| 0 <= k < j ==> self.ratings@[k].title != id,
            decreases self.ratings.len() - j,
        {
            if self.ratings[j].title == id {
                assert(rating_of_title_at(self@.ratings, j as int, id as int));
                return true;
            }
            j = j + 1;
        }
        let mut m: usize = 0;
        while m < self.matches.len()
            invariant
                m <= self.matches.len(),
                forall|k: int|
                    0 <= k < m ==> self.matches@[k].a != id && self.matches@[k].b != id,
            decreases self.matches.len() - m,
        {
            if self.matches[m].a == id || self.matches[m].b == id {
                assert(judgment_with_at(self@.matches, m as int, id as int));
                return true;
            }
            m = m + 1;
        }
        assert forall|k: int| !#[trigger] rating_of_title_at(self@.ratings, k, id as int) by {}
        assert forall|k: int| !#[trigger] judgment_with_at(self@.matches, k, id as int) by {}
        false
    }

    /// Tells whether title `title` has been judged under `group`.
    fn was_judged_under(&self, group: i32, title: i32) -> (yes: bool)
        ensures
            yes == has_judgments(self@, group as int, title as int),
    {
        let mut m: usize = 0;
        while m < self.matches.len()
            invariant
                m <= self.matches.len(),
                forall|k: int|
                    0 <= k < m ==> !judgment_of_at(self.matches@, k, group as int, title as int),
            decreases self.matches.len() - m,
        {
            if self.matches[m].criteria_group == group && (self.matches[m].a == title
                || self.matches[m].b == title) {
                assert(judgment_of_at(self@.matches, m as int, group as int, title as int));
                return true;
            }
            m = m + 1;
        }
        assert forall|k: int| !#[trigger] judgment_of_at(
            self@.matches,
            k,
            group as int,
            title as int,
        ) by {}
        false
    }
}

impl Record<Store> for DeleteTitle {
    open spec fn accepts(&self, connection: Store) -> bool {
        connection.wf()
    }

    /// A title that is not rated anywhere and has no judgment is removed and one row is
    /// reported. A title that a rating or a judgment refers to stays, and the request fails
    /// as a conflict. A request for a title that does not exist changes nothing and reports
    /// no row.
    open spec fn saved(&self, before: Store, after: Store, outcome: Result<usize, DbError>) -> bool {
        &&& after.wf()
        &&& if !before@.has_title(self.id as int) {
            outcome == Ok::<usize, DbError>(0) && after@ == before@
        } else if title_in_use(before@, self.id as int) {
            outcome == Err::<usize, DbError>(DbError::PersistenceFailure(Fault::Conflict))
                && after@ == before@
        } else {
            outcome == Ok::<usize, DbError>(1) && after@ == (Ledger {
                titles: before@.titles.remove(before@.title_index(self.id as int)),
                ..before@
            })
        }
    }

    fn save(&self, connection: &mut Store) -> (outcome: Result<usize, DbError>) {
        let i: usize = match connection.find_title(self.id) {
            Some(i) => i,
            None => {
                return Ok(0);
            },
        };
        if connection.title_is_in_use(self.id) {
            return Err(DbError::PersistenceFailure(Fault::Conflict));
        }
        proof {
            crate::model::lemma_title_at(connection@, i as int, self.id as int);
            lemma_title_removed(connection@, i as int);
        }
        connection.titles.remove(i);
        proof {
            assert(connection@ == (Ledger {
                titles: old(connection)@.titles.remove(i as int),
                ..old(connection)@
            }));
        }
        Ok(1)
    }
}

impl Record<Store> for DeleteTitleCriteria {
    open spec fn accepts(&self, connection: Store) -> bool {
        connection.wf()
    }

    /// The rating of the title under the group is removed and one row is reported, unless
    /// the title has been judged under the group: then the rating stays and the request
    /// fails as a conflict. A title that is not rated under the group changes nothing and
    /// reports no row.
    open spec fn saved(&self, before: Store, after: Store, outcome: Result<usize, DbError>) -> bool {
        &&& after.wf()
        &&& if !before@.rated(self.criteria as int, self.title as int) {
            outcome == Ok::<usize, DbError>(0) && after@ == before@
        } else if has_judgments(before@, self.criteria as int, self.title as int) {
            outcome == Err::<usize, DbError>(DbError::PersistenceFailure(Fault::Conflict))
                && after@ == before@
        } else {
            outcome == Ok::<usize, DbError>(1) && after@ == (Ledger {
                ratings: before@.ratings.remove(
                    before@.rating_index(self.criteria as int, self.title as int),
                ),
                ..before@
            })
        }
    }

    fn save(&self, connection: &mut Store) -> (outcome: Result<usize, DbError>) {
        let i: usize = match connection.find_rating(self.criteria, self.title) {
            Some(i) => i,
            None => {
                return Ok(0);
            },
        };
        if connection.was_judged_under(self.criteria, self.title) {
            return Err(DbError::PersistenceFailure(Fault::Conflict));
        }
        proof {
            crate::model::lemma_rating_at(
                connection@,
                i as int,
                self.criteria as int,
                self.title as int,
            );
            lemma_rating_removed(connection@, i as int);
        }
        connection.ratings.remove(i);
        proof {
            assert(connection@ == (Ledger {
                ratings: old(connection)@.ratings.remove(i as int),
                ..old(connection)@
            }));
        }
        Ok(1)
    }
}

impl Record<Store> for UpdateTitle {
    open spec fn accepts(&self, connection: Store) -> bool {
        connection.wf()
    }

    /// The title with the given id takes the new name; a request for a title that does not
    /// exist changes nothing. One row is reported either way.
    open spec fn saved(&self, before: Store, after: Store, outcome: Result<usize, DbError>) -> bool {
        &&& after.wf()
        &&& outcome == Ok::<usize, DbError>(1)
        &&& if before@.has_title(self.id as int) {
            after@ == (Ledger {
                titles: before@.titles.update(
                    before@.title_index(self.id as int),
                    Title { id: self.id, name: self.name },
                ),
                ..before@
            })
        } else {
            after@ == before@
        }
    }

    fn save(&self, connection: &mut Store) -> (outcome: Result<usize, DbError>) {
        match connection.find_title(self.id) {
            Some(i) => {
                let title = Title { id: self.id, name: self.name.clone() };
                proof {
                    crate::model::lemma_title_at(connection@, i as int, self.id as int);
                    lemma_titles_relabelled(connection@, connection@.titles.update(i as int, title));
                }
                connection.titles.set(i, title);
                proof {
                    assert(connection@ == (Ledger {
                        titles: old(connection)@.titles.update(i as int, title),
                        ..old(connection)@
                    }));
                }
            },
            None => {},
        }
        Ok(1)
    }
}

impl Record<Store> for UpdateCriteriaGroup {
    open spec fn accepts(&self, connection: Store) -> bool {
        connection.wf()
    }

    /// The group with the given id takes the new name and one row is reported; a request
    /// for a group that does not exist changes nothing and reports no row.
    open spec fn saved(&self, before: Store, after: Store, outcome: Result<usize, DbError>) -> bool {
        &&& after.wf()
        &&& if before@.has_group(self.id as int) {
            outcome == Ok::<usize, DbError>(1) && after@ == (Ledger {
                groups: before@.groups.update(
                    before@.group_index(self.id as int),
                    CriteriaGroup { id: self.id, name: self.name },
                ),
                ..before@
            })
        } else {
            outcome == Ok::<usize, DbError>(0) && after@ == before@
        }
    }

    fn save(&self, connection: &mut Store) -> (outcome: Result<usize, DbError>) {
        match connection.find_group(self.id) {
            Some(i) => {
                let group = CriteriaGroup { id: self.id, name: self.name.clone() };
                proof {
                    crate::model::lemma_group_at(connection@, i as int, self.id as int);
                    lemma_groups_relabelled(connection@, connection@.groups.update(i as int, group));
                }
                connection.groups.set(i, group);
                proof {
                    assert(connection@ == (Ledger {
                        groups: old(connection)@.groups.update(i as int, group),
                        ..old(connection)@
                    }));
                }
                Ok(1)
            },
            None => Ok(0),
        }
    }
}

impl Record<Store> for UpdateCriterion {
    open spec fn accepts(&self, connection: Store) -> bool {
        connection.wf()
    }

    /// The criterion with the given id takes the new name and one row is reported; a
    /// request for a criterion that does not exist changes nothing and reports no row.
    open spec fn saved(&self, before: Store, after: Store, outcome: Result<usize, DbError>) -> bool {
        &&& after.wf()
        &&& if before@.has_criterion(self.id as int) {
            outcome == Ok::<usize, DbError>(1) && exists|i: int|
                #![trigger criterion_at(before@.criteria, i, self.id as int)]
                criterion_at(before@.criteria, i, self.id as int) && after@ == (Ledger {
                    criteria: before@.criteria.update(
                        i,
                        CriterionRow {
                            id: self.id,
                            group: before@.criteria[i].group,
                            name: self.name,
                        },
                    ),
                    ..before@
                })
        } else {
            outcome == Ok::<usize, DbError>(0) && after@ == before@
        }
    }

    fn save(&self, connection: &mut Store) -> (outcome: Result<usize, DbError>) {
        match connection.find_criterion(self.id) {
            Some(i) => {
                let row = CriterionRow {
                    id: self.id,
                    group: connection.criteria[i].group,
                    name: self.name.clone(),
                };
                proof {
                    let criteria = connection@.criteria.update(i as int, row);
                    assert forall|p: int, q: int| 0 <= p < q < criteria.len() implies criteria[p].id
                        != criteria[q].id by {
                        assert(connection@.criteria[p].id != connection@.criteria[q].id);
                    }
                    assert forall|p: int| 0 <= p < criteria.len() implies connection@.has_group(
                        #[trigger] criteria[p].group as int,
                    ) by {
                        assert(connection@.has_group(connection@.criteria[p].group as int));
                    }
                    lemma_criteria_changed(connection@, criteria);
                }
                connection.criteria.set(i, row);
                proof {
                    assert(connection@ == (Ledger {
                        criteria: old(connection)@.criteria.update(i as int, row),
                        ..old(connection)@
                    }));
                    assert(criterion_at(old(connection)@.criteria, i as int, self.id as int));
                }
                Ok(1)
            },
            None => Ok(0),
        }
    }
}

impl Record<Store> for DeleteCriteriaGroup {
    open spec fn accepts(&self, connection: Store) -> bool {
        connection.wf()
    }

    /// A group that nothing refers to is removed and one row is reported. A group that a
    /// criterion, a rating or a judgment refers to stays, and the request fails as a
    /// conflict. A request for a group that does not exist changes nothing and reports no
    /// row.
    open spec fn saved(&self, before: Store, after: Store, outcome: Result<usize, DbError>) -> bool {
        &&& after.wf()
        &&& if !before@.has_group(self.id as int) {
            outcome == Ok::<usize, DbError>(0) && after@ == before@
        } else if group_in_use(before@, self.id as int) {
            outcome == Err::<usize, DbError>(DbError::PersistenceFailure(Fault::Conflict))
                && after@ == before@
        } else {
            outcome == Ok::<usize, DbError>(1) && after@ == (Ledger {
                groups: before@.groups.remove(before@.group_index(self.id as int)),
                ..before@
            })
        }
    }

    fn save(&self, connection: &mut Store) -> (outcome: Result<usize, DbError>) {
        let i: usize = match connection.find_group(self.id) {
            Some(i) => i,
            None => {
                return Ok(0);
            },
        };
        if connection.group_is_in_use(self.id) {
            return Err(DbError::PersistenceFailure(Fault::Conflict));
        }
        proof {
            crate::model::lemma_group_at(connection@, i as int, self.id as int);
            lemma_group_removed(connection@, i as int);
        }
        connection.groups.remove(i);
        proof {
            assert(connection@ == (Ledger {
                groups: old(connection)@.groups.remove(i as int),
                ..old(connection)@
            }));
        }
        Ok(1)
    }
}

impl Record<Store> for DeleteCriterion {
    open spec fn accepts(&self, connection: Store) -> bool {
        connection.wf()
    }

    /// A criterion under which no judgment was shown is removed and one row is reported. A
    /// criterion that the history refers to stays, and the request fails as a conflict. A
    /// request for a criterion that does not exist changes nothing and reports no row.
    open spec fn saved(&self, before: Store, after: Store, outcome: Result<usize, DbError>) -> bool {
        &&& after.wf()
        &&& if !before@.has_criterion(self.id as int) {
            outcome == Ok::<usize, DbError>(0) && after@ == before@
        } else if criterion_in_use(before@, self.id as int) {
            outcome == Err::<usize, DbError>(DbError::PersistenceFailure(Fault::Conflict))
                && after@ == before@
        } else {
            outcome == Ok::<usize, DbError>(1) && exists|i: int|
                #![trigger criterion_at(before@.criteria, i, self.id as int)]
                criterion_at(before@.criteria, i, self.id as int) && after@ == (Ledger {
                    criteria: before@.criteria.remove(i),
                    ..before@
                })
        }
    }

    fn save(&self, connection: &mut Store) -> (outcome: Result<usize, DbError>) {
        let i: usize = match connection.find_criterion(self.id) {
            Some(i) => i,
            None => {
                return Ok(0);
            },
        };
        if connection.criterion_is_in_use(self.id) {
            return Err(DbError::PersistenceFailure(Fault::Conflict));
        }
        proof {
            let criteria = connection@.criteria.remove(i as int);
            assert forall|p: int, q: int| 0 <= p < q < criteria.len() implies criteria[p].id
                != criteria[q].id by {
                let pp = if p < i { p } else { p + 1 };
                let qq = if q < i { q } else { q + 1 };
                assert(connection@.criteria[pp].id != connection@.criteria[qq].id);
            }
            assert forall|p: int| 0 <= p < criteria.len() implies connection@.has_group(
                #[trigger] criteria[p].group as int,
            ) by {
                let pp = if p < i { p } else { p + 1 };
                assert(connection@.has_group(connection@.criteria[pp].group as int));
            }
            lemma_criteria_changed(connection@, criteria);
        }
        connection.criteria.remove(i);
        proof {
            assert(connection@ == (Ledger {
                criteria: old(connection)@.criteria.remove(i as int),
                ..old(connection)@
            }));
            assert(criterion_at(old(connection)@.criteria, i as int, self.id as int));
        }
        Ok(1)
    }
}

impl Record<Store> for GroupAddToTiles {
    open spec fn accepts(&self, connection: Store) -> bool {
        connection.wf()
    }

    /// Every title that is not rated under the group yet is rated under it from the
    /// baseline, in table order, and the number of titles added is returned. A group that
    /// does not exist is not found, and nothing changes.
    open spec fn saved(&self, before: Store, after: Store, outcome: Result<usize, DbError>) -> bool {
        &&& after.wf()
        &&& if !before@.has_group(self.id as int) {
            outcome == Err::<usize, DbError>(DbError::PersistenceFailure(Fault::NotFound))
                && after@ == before@
        } else {
            outcome == Ok::<usize, DbError>(
                fresh_ratings(before@.titles, before@.ratings, self.id as int).len() as usize,
            ) && after@ == (Ledger {
                ratings: before@.ratings + fresh_ratings(
                    before@.titles,
                    before@.ratings,
                    self.id as int,
                ),
                ..before@
            })
        }
    }

    fn save(&self, connection: &mut Store) -> (outcome: Result<usize, DbError>) {
        if connection.find_group(self.id).is_none() {
            return Err(DbError::PersistenceFailure(Fault::NotFound));
        }
        let ghost before = connection@;
        let ghost group = self.id as int;
        let mut added: usize = 0;
        let mut i: usize = 0;
        proof {
            crate::seqs::lemma_filter_empty(
                before.titles.take(0),
                unrated_under(before.ratings, group),
            );
            assert(fresh_ratings(before.titles.take(0), before.ratings, group) =~= Seq::<
                Rating,
            >::empty());
            assert(connection@.ratings =~= before.ratings + fresh_ratings(
                before.titles.take(0),
                before.ratings,
                group,
            ));
        }
        while i < connection.titles.len()
            invariant
                connection.wf(),
                before.wf(),
                group == self.id as int,
                before.has_group(group),
                i <= connection.titles.len(),
                connection@ == (Ledger {
                    ratings: before.ratings + fresh_ratings(
                        before.titles.take(i as int),
                        before.ratings,
                        group,
                    ),
                    ..before
                }),
                added == fresh_ratings(before.titles.take(i as int), before.ratings, group).len(),
                added <= i,
                forall|g: int, t: int| before.rated(g, t) ==> connection@.rated(g, t),
                forall|t: int|
                    connection@.rated(group, t) ==> before.rated(group, t) || exists|k: int|
                        0 <= k < i && #[trigger] title_at(before.titles, k, t),
            decreases connection.titles.len() - i,
        {
            let title: i32 = connection.titles[i].id;
            let ghost now = connection@;
            proof {
                lemma_fresh_step(before.titles, before.ratings, group, i as int);
                assert(title_at(before.titles, i as int, title as int));
                if now.rated(group, title as int) && !before.rated(group, title as int) {
                    let k = choose|k: int| 0 <= k < i && #[trigger] title_at(
                        before.titles,
                        k,
                        title as int,
                    );
                    assert(before.titles[k].id != before.titles[i as int].id);
                }
                assert(unrated_under(before.ratings, group)(before.titles[i as int])
                    == !before.rated(group, title as int));
            }
            if connection.find_rating(self.id, title).is_none() {
                let rating = Rating { title, group: self.id, elo: BASELINE };
                proof {
                    assert(now.has_title(title as int));
                    lemma_rating_appended(now, rating);
                    assert(rating == baseline_of(before.titles[i as int], group));
                }
                connection.ratings.push(rating);
                added = added + 1;
                proof {
                    assert(connection@.ratings =~= before.ratings + fresh_ratings(
                        before.titles.take(i as int + 1),
                        before.ratings,
                        group,
                    ));
                    assert(connection@ == (Ledger { ratings: now.ratings.push(rating), ..now }));
                    assert forall|t: int| connection@.rated(group, t) implies before.rated(group, t)
                        || exists|k: int| 0 <= k < i + 1 && #[trigger] title_at(before.titles, k, t) by {
                        if t != title as int {
                            assert(now.rated(group, t));
                        }
                    }
                }
            } else {
                proof {
                    assert forall|t: int| connection@.rated(group, t) implies before.rated(group, t)
                        || exists|k: int| 0 <= k < i + 1 && #[trigger] title_at(before.titles, k, t) by {
                        if !before.rated(group, t) {
                            let k = choose|k: int| 0 <= k < i && #[trigger] title_at(
                                before.titles,
                                k,
                                t,
                            );
                            assert(title_at(before.titles, k, t));
                        }
                    }
                }
            }
            i = i + 1;
        }
        proof {
            assert(before.titles.take(i as int) =~= before.titles);
        }
        Ok(added)
    }
}

} // verus!
