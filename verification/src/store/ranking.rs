//! Rankings: the rated titles in order of their ratings, read page by page.

use vstd::prelude::*;

use super::Store;
use crate::dto::TopRow;
use crate::error::DbError;
use crate::model::{lemma_group_at, lemma_placed_at, lemma_title_at};
use crate::seqs::{as_ints, page};

verus! {

/// What a ranking is asked to list: every group, or the groups with the given name.
pub open spec fn filter_of(group: Option<&str>) -> Option<Seq<char>> {
    match group {
        Some(name) => Some(name@),
        None => None,
    }
}

/// The same, for a name that is held as a string.
pub open spec fn filter_held(wanted: Option<String>) -> Option<Seq<char>> {
    match wanted {
        Some(name) => Some(name@),
        None => None,
    }
}

impl Store {
    /// Tells whether rating row `row` belongs to the ranking asked for.
    fn is_listed(&self, row: usize, wanted: &Option<String>) -> (yes: bool)
        requires
            self.wf(),
            row < self.ratings.len(),
        ensures
            yes == self@.listed(row as int, filter_held(*wanted)),
    {
        match wanted {
            None => true,
            Some(name) => {
                let group: i32 = self.ratings[row].group;
                match self.find_group(group) {
                    Some(g) => {
                        proof {
                            lemma_group_at(self@, g as int, group as int);
                        }
                        self.groups[g].name == *name
                    },
                    None => {
                        proof {
                            assert(self@.has_group(self@.ratings[row as int].group as int));
                            assert(false);
                        }
                        false
                    },
                }
            },
        }
    }

    /// Writes the line of a ranking that shows rating row `row`.
    fn top_row(&self, row: usize) -> (line: TopRow)
        requires
            self.wf(),
            row < self.ratings.len(),
        ensures
            self@.shows_row(row as int, line),
    {
        let rating = self.ratings[row];
        let group: String = match self.find_group(rating.group) {
            Some(g) => {
                proof {
                    lemma_group_at(self@, g as int, rating.group as int);
                }
                self.groups[g].name.clone()
            },
            None => {
                proof {
                    assert(self@.has_group(self@.ratings[row as int].group as int));
                    assert(false);
                }
                String::new()
            },
        };
        let entry: String = match self.find_title(rating.title) {
            Some(t) => {
                proof {
                    lemma_title_at(self@, t as int, rating.title as int);
                }
                self.titles[t].name.clone()
            },
            None => {
                proof {
                    assert(self@.has_title(self@.ratings[row as int].title as int));
                    assert(false);
                }
                String::new()
            },
        };
        TopRow { group, entry, elo: rating.elo }
    }

    /// Orders the listed rating rows: the best first.
    fn ranked_rows(&self, wanted: &Option<String>) -> (order: Vec<usize>)
        requires
            self.wf(),
        ensures
            as_ints(order@) == self@.ranking(filter_held(*wanted)),
            forall|k: int| 0 <= k < order@.len() ==> order@[k] < self@.ratings.len(),
    {
        let ghost filter: Option<Seq<char>> = filter_held(*wanted);
        let mut order: Vec<usize> = Vec::new();
        let mut i: usize = 0;
        assert(as_ints(order@) =~= self@.ranking_upto(0, filter));
        while i < self.ratings.len()
            invariant
                self.wf(),
                i <= self.ratings.len(),
                filter == filter_held(*wanted),
                as_ints(order@) == self@.ranking_upto(i as nat, filter),
                forall|k: int| 0 <= k < order@.len() ==> order@[k] < i,
            decreases self.ratings.len() - i,
        {
            if self.is_listed(i, wanted) {
                let elo: i32 = self.ratings[i].elo;
                let mut k: usize = order.len();
                while k > 0 && self.ratings[order[k - 1]].elo < elo
                    invariant
                        i < self.ratings.len(),
                        elo == self@.ratings[i as int].elo,
                        k <= order@.len(),
                        forall|j: int| 0 <= j < order@.len() ==> order@[j] < i,
                        forall|j: int|
                            k <= j < order@.len() ==> !self@.outranks(
                                #[trigger] as_ints(order@)[j],
                                i as int,
                            ),
                    decreases k,
                {
                    k = k - 1;
                }
                proof {
                    let before = as_ints(order@);
                    assert forall|j: int| k <= j < before.len() implies !self@.outranks(
                        #[trigger] before[j],
                        i as int,
                    ) by {}
                    if k > 0 {
                        assert(before[k - 1] == order@[k - 1]);
                        assert(self@.outranks(before[k - 1], i as int));
                    }
                    lemma_placed_at(self@, before, i as int, k as int);
                    assert(as_ints(order@.insert(k as int, i)) =~= before.insert(k as int, i as int));
                }
                order.insert(k, i);
            }
            i = i + 1;
        }
        order
    }

    /// Reads page `page_index` of the ranking, `page_size` lines to a page: the rated titles
    /// of every group, or of the groups named `group`, the higher rating first and among
    /// equal ratings the one that was rated first. Each line gives the group's name, the
    /// title's name and the rating. A page beyond the data is empty.
    pub fn top(&self, group: Option<&str>, page_size: usize, page_index: usize) -> (rows: Result<
        Vec<TopRow>,
        DbError,
    >)
        requires
            self.wf(),
        ensures
            rows is Ok,
            rows->Ok_0@.len() == page(
                self@.ranking(filter_of(group)),
                page_size as nat,
                page_index as nat,
            ).len(),
            forall|k: int|
                0 <= k < rows->Ok_0@.len() ==> self@.shows_row(
                    page(self@.ranking(filter_of(group)), page_size as nat, page_index as nat)[k],
                    #[trigger] rows->Ok_0@[k],
                ),
    {
        let wanted: Option<String> = match group {
            Some(name) => Some(name.to_owned()),
            None => None,
        };
        let order: Vec<usize> = self.ranked_rows(&wanted);
        let ghost ranking = self@.ranking(filter_of(group));
        let ghost want = page(ranking, page_size as nat, page_index as nat);
        let n: usize = order.len();
        let start: usize = match page_index.checked_mul(page_size) {
            Some(offset) => if offset < n {
                offset
            } else {
                n
            },
            None => n,
        };
        let end: usize = if page_size < n - start {
            start + page_size
        } else {
            n
        };
        proof {
            assert(ranking.len() == n);
            assert(want =~= ranking.subrange(start as int, end as int));
        }
        let mut rows: Vec<TopRow> = Vec::new();
        let mut k: usize = start;
        while k < end
            invariant
                self.wf(),
                start <= k <= end <= n,
                n == order@.len(),
                as_ints(order@) == ranking,
                forall|j: int| 0 <= j < order@.len() ==> order@[j] < self@.ratings.len(),
                want == ranking.subrange(start as int, end as int),
                rows@.len() == k - start,
                forall|j: int|
                    0 <= j < rows@.len() ==> self@.shows_row(want[j], #[trigger] rows@[j]),
            decreases end - k,
        {
            let line: TopRow = self.top_row(order[k]);
            proof {
                assert(as_ints(order@)[k as int] == order@[k as int]);
                assert(want[k - start] == ranking[k as int]);
            }
            rows.push(line);
            k = k + 1;
        }
        Ok(rows)
    }
}

} // verus!
