//! Matchmaking: which two titles to compare next.

use vstd::prelude::*;

use super::Store;
use crate::dto::{Contest, Contestant, Criterion};
use crate::error::DbError;
use crate::model::{
    criterion_in, lead_at, lemma_best_rows, lemma_group_at, lemma_judged_symmetric, lemma_lead_at,
    lemma_no_rows_left, lemma_title_at,
};

verus! {

impl Store {
    /// Finds the first criterion of `group`.
    fn find_lead(&self, group: i32) -> (found: Option<usize>)
        ensures
            match found {
                Some(i) => self@.is_lead(i as int, group as int),
                None => !self@.has_lead(group as int),
            },
    {
        let mut i: usize = 0;
        while i < self.criteria.len()
            invariant
                i <= self.criteria.len(),
                forall|k: int| 0 <= k < i ==> !#[trigger] criterion_in(self.criteria@, k, group as int),
            decreases self.criteria.len() - i,
        {
            if self.criteria[i].group == group {
                assert(criterion_in(self.criteria@, i as int, group as int));
                return Some(i);
            }
            i = i + 1;
        }
        assert forall|k: int| !#[trigger] lead_at(self@.criteria, k, group as int) by {
            if lead_at(self@.criteria, k, group as int) {
                assert(criterion_in(self.criteria@, k, group as int));
            }
        }
        None
    }

    /// The distance between the ratings of rows `p` and `q`.
    fn row_gap(&self, p: usize, q: usize) -> (gap: i64)
        requires
            p < self.ratings.len(),
            q < self.ratings.len(),
        ensures
            gap == crate::model::distance(self@.ratings[p as int].elo as int, self@.ratings[q as int].elo as int),
    {
        let x: i64 = self.ratings[p].elo as i64;
        let y: i64 = self.ratings[q].elo as i64;
        if x >= y {
            x - y
        } else {
            y - x
        }
    }

    /// Describes one side of a contest from its rating row.
    fn contestant(&self, row: usize) -> (c: Contestant)
        requires
            self.wf(),
            row < self.ratings.len(),
        ensures
            c.id == self@.ratings[row as int].title,
            c.elo == self@.ratings[row as int].elo,
            c.name@ == self@.title_name(self@.ratings[row as int].title as int),
    {
        let id: i32 = self.ratings[row].title;
        match self.find_title(id) {
            Some(t) => {
                proof {
                    lemma_title_at(self@, t as int, id as int);
                }
                Contestant { id, name: self.titles[t].name.clone(), elo: self.ratings[row].elo }
            },
            None => {
                proof {
                    assert(self@.has_title(self@.ratings[row as int].title as int));
                    assert(false);
                }
                Contestant { id, name: String::new(), elo: self.ratings[row].elo }
            },
        }
    }

    /// Describes the criterion under which the titles of `group` are compared.
    fn shown_criterion(&self, group: i32, row: usize) -> (c: Criterion)
        requires
            self.wf(),
            row < self.ratings.len(),
            self@.ratings[row as int].group == group,
        ensures
            c.group == group,
            c.group_name@ == self@.group_name(group as int),
            c.id == self@.lead_id(group as int),
            c.name@ == self@.lead_name(group as int),
    {
        let group_name: String = match self.find_group(group) {
            Some(g) => {
                proof {
                    lemma_group_at(self@, g as int, group as int);
                }
                self.groups[g].name.clone()
            },
            None => {
                proof {
                    assert(self@.has_group(self@.ratings[row as int].group as int));
                    assert(false);
                }
                String::new()
            },
        };
        match self.find_lead(group) {
            Some(k) => {
                proof {
                    lemma_lead_at(self@, k as int, group as int);
                }
                Criterion {
                    group,
                    id: self.criteria[k].id,
                    name: self.criteria[k].name.clone(),
                    group_name,
                }
            },
            None => Criterion { group, id: 0, name: String::new(), group_name },
        }
    }

    /// Draws the next contest of `group`: among the pairs of its titles that have not met
    /// under it, the pair whose ratings are closest, and among equally close pairs the one
    /// with the lowest ids. Contestant `a` is the title with the lower id. Where no pair is
    /// left, the answer is `NoEligiblePair`.
    pub fn next_contest_in(&self, group: i32) -> (outcome: Result<Contest, DbError>)
        requires
            self.wf(),
        ensures
            match outcome {
                Ok(c) => self@.is_next_pair(group as int, c.a.id as int, c.b.id as int)
                    && self@.presents(group as int, c.a.id as int, c.b.id as int, c),
                Err(e) => e == DbError::NoEligiblePair && self@.exhausted(group as int),
            },
    {
        let n: usize = self.ratings.len();
        let mut found: bool = false;
        let mut bp: usize = 0;
        let mut bq: usize = 0;
        let mut i: usize = 0;
        while i < n
            invariant
                self.wf(),
                n == self.ratings.len(),
                i <= n,
                found ==> bp < n && bq < n && self@.contend(group as int, bp as int, bq as int)
                    && self@.ratings[bp as int].title < self@.ratings[bq as int].title,
                forall|p: int, q: int|
                    0 <= p < q < n && p < i && #[trigger] self@.contend(group as int, p, q) ==> found
                        && self@.rows_no_later(bp as int, bq as int, p, q),
            decreases n - i,
        {
            let mut j: usize = i + 1;
            while j < n
                invariant
                    self.wf(),
                    n == self.ratings.len(),
                    i < n,
                    i < j <= n,
                    found ==> bp < n && bq < n && self@.contend(group as int, bp as int, bq as int)
                        && self@.ratings[bp as int].title < self@.ratings[bq as int].title,
                    forall|p: int, q: int|
                        0 <= p < q < n && (p < i || (p == i && q < j)) && #[trigger] self@.contend(
                            group as int,
                            p,
                            q,
                        ) ==> found && self@.rows_no_later(bp as int, bq as int, p, q),
                decreases n - j,
            {
                let a: i32 = self.ratings[i].title;
                let b: i32 = self.ratings[j].title;
                if self.ratings[i].group == group && self.ratings[j].group == group
                    && !self.is_judged(group, a, b) {
                    assert(self@.contend(group as int, i as int, j as int));
                    assert(a != b);
                    let gap: i64 = self.row_gap(i, j);
                    let lo: i32 = if a < b { a } else { b };
                    let hi: i32 = if a < b { b } else { a };
                    let better: bool = if !found {
                        true
                    } else {
                        let best_gap: i64 = self.row_gap(bp, bq);
                        let best_lo: i32 = self.ratings[bp].title;
                        let best_hi: i32 = self.ratings[bq].title;
                        gap < best_gap || (gap == best_gap && (lo < best_lo || (lo == best_lo
                            && hi < best_hi)))
                    };
                    if better {
                        proof {
                            lemma_judged_symmetric(self@, group as int, a as int, b as int);
                        }
                        if a < b {
                            bp = i;
                            bq = j;
                        } else {
                            bp = j;
                            bq = i;
                        }
                        found = true;
                    }
                }
                j = j + 1;
            }
            i = i + 1;
        }
        if !found {
            proof {
                lemma_no_rows_left(self@, group as int);
            }
            return Err(DbError::NoEligiblePair);
        }
        proof {
            lemma_best_rows(self@, group as int, bp as int, bq as int);
        }
        let a: Contestant = self.contestant(bp);
        let b: Contestant = self.contestant(bq);
        let criterion: Criterion = self.shown_criterion(group, bp);
        Ok(Contest { criterion, a, b })
    }

    /// Draws the next contest. A pinned group is drawn from as it is. Without one, the
    /// number `draw` picks a group among those with two or more rated titles, each of them
    /// for as many values of `draw` as any other, and the contest is drawn from that group;
    /// if that group has no pair left, or no group has two titles, the answer is
    /// `NoEligiblePair`.
    pub fn next_contest(&self, group: Option<i32>, draw: u64) -> (outcome: Result<Contest, DbError>)
        requires
            self.wf(),
        ensures
            match self@.drawn_group(group, draw) {
                None => outcome == Err::<Contest, DbError>(DbError::NoEligiblePair),
                Some(g) => match outcome {
                    Ok(c) => self@.is_next_pair(g, c.a.id as int, c.b.id as int) && self@.presents(
                        g,
                        c.a.id as int,
                        c.b.id as int,
                        c,
                    ),
                    Err(e) => e == DbError::NoEligiblePair && self@.exhausted(g),
                },
            },
    {
        match group {
            Some(g) => self.next_contest_in(g),
            None => {
                let groups = self.contested_groups();
                if groups.len() == 0 {
                    Err(DbError::NoEligiblePair)
                } else {
                    let pick: usize = (draw % (groups.len() as u64)) as usize;
                    self.next_contest_in(groups[pick].id)
                }
            },
        }
    }
}

} // verus!
