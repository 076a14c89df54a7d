//! The mathematical model of the store: five tables as sequences, and what the engine's
//! answers mean in terms of them.

use vstd::prelude::*;

use crate::dto::{Contest, CriteriaGroup, CriteriaGroupItem, MatchResult, Title, TopRow};
use crate::elo::{rating_change, Score};
use crate::error::Fault;
use crate::seqs::{lemma_filter_empty, lemma_filter_step};

verus! {

/// The rating a title starts with when it is first rated under a group.
pub const BASELINE: i32 = 1000;

/// A title's rating under one group. A row exists exactly while the title is rated there.
#[derive(Debug, Clone, Copy, PartialEq, Eq, Structural)]
pub struct Rating {
    pub title: i32,
    pub group: i32,
    pub elo: i32,
}

/// A criterion as it is stored: its id, the group it belongs to, and its name.
#[derive(Debug, PartialEq)]
pub struct CriterionRow {
    pub id: i32,
    pub group: i32,
    pub name: String,
}

impl Clone for CriterionRow {
    fn clone(&self) -> (copy: Self)
        ensures
            copy == *self,
    {
        CriterionRow { id: self.id, group: self.group, name: self.name.clone() }
    }
}

/// The contents of a store, each table in insertion order.
pub struct Ledger {
    pub titles: Seq<Title>,
    pub groups: Seq<CriteriaGroup>,
    pub criteria: Seq<CriterionRow>,
    pub ratings: Seq<Rating>,
    pub matches: Seq<MatchResult>,
}

/// Whether a match record is about the unordered pair `a`, `b` under `group`.
pub open spec fn pairs(m: MatchResult, group: int, a: int, b: int) -> bool {
    m.criteria_group == group && ((m.a == a && m.b == b) || (m.a == b && m.b == a))
}

/// Selects the ratings held under `group`.
pub open spec fn rated_under(group: int) -> spec_fn(Rating) -> bool {
    |r: Rating| r.group == group
}

/// Selects the criteria that belong to `group`.
pub open spec fn criterion_under(group: int) -> spec_fn(CriterionRow) -> bool {
    |c: CriterionRow| c.group == group
}

/// A stored criterion as it is listed under its group.
pub open spec fn as_item(c: CriterionRow) -> CriteriaGroupItem {
    CriteriaGroupItem { id: c.id, name: c.name }
}

/// Row `i` of a title table holds title `id`.
pub open spec fn title_at(titles: Seq<Title>, i: int, id: int) -> bool {
    0 <= i < titles.len() && titles[i].id == id
}

/// Row `i` of a group table holds group `id`.
pub open spec fn group_at(groups: Seq<CriteriaGroup>, i: int, id: int) -> bool {
    0 <= i < groups.len() && groups[i].id == id
}

/// Row `i` of a criterion table holds criterion `id`.
pub open spec fn criterion_at(criteria: Seq<CriterionRow>, i: int, id: int) -> bool {
    0 <= i < criteria.len() && criteria[i].id == id
}

/// Row `i` of a criterion table belongs to `group`.
pub open spec fn criterion_in(criteria: Seq<CriterionRow>, i: int, group: int) -> bool {
    0 <= i < criteria.len() && criteria[i].group == group
}

/// Row `i` of a criterion table is the first one that belongs to `group`.
pub open spec fn lead_at(criteria: Seq<CriterionRow>, i: int, group: int) -> bool {
    criterion_in(criteria, i, group) && forall|j: int|
        0 <= j < i ==> !#[trigger] criterion_in(criteria, j, group)
}

/// Row `i` of a rating table rates `title` under `group`.
pub open spec fn rating_at(ratings: Seq<Rating>, i: int, group: int, title: int) -> bool {
    0 <= i < ratings.len() && ratings[i].group == group && ratings[i].title == title
}

/// Row `k` of a match table records a judgment of `a` against `b` under `group`, in either
/// order.
pub open spec fn match_at(matches: Seq<MatchResult>, k: int, group: int, a: int, b: int) -> bool {
    0 <= k < matches.len() && pairs(matches[k], group, a, b)
}

/// The criteria of `group` among `criteria`, as they are listed, in table order.
pub open spec fn items_under(criteria: Seq<CriterionRow>, group: int) -> Seq<CriteriaGroupItem> {
    criteria.filter(criterion_under(group)).map_values(|c: CriterionRow| as_item(c))
}

/// Whether a rating can be stored.
pub open spec fn fits(elo: int) -> bool {
    i32::MIN <= elo <= i32::MAX
}

/// The smaller of two ids.
pub open spec fn lower(x: int, y: int) -> int {
    if x <= y {
        x
    } else {
        y
    }
}

/// The larger of two ids.
pub open spec fn upper(x: int, y: int) -> int {
    if x <= y {
        y
    } else {
        x
    }
}

/// The distance between two ratings.
pub open spec fn distance(x: int, y: int) -> int {
    if x >= y {
        x - y
    } else {
        y - x
    }
}

/// Whether the pair with key `(gap1, lo1, hi1)` is drawn no later than the pair with key
/// `(gap2, lo2, hi2)`: the smaller gap first, then the lower title ids.
pub open spec fn key_le(gap1: int, lo1: int, hi1: int, gap2: int, lo2: int, hi2: int) -> bool {
    gap1 < gap2 || (gap1 == gap2 && (lo1 < lo2 || (lo1 == lo2 && hi1 <= hi2)))
}

impl Ledger {
    /// The store with nothing in it.
    pub open spec fn empty() -> Ledger {
        Ledger {
            titles: Seq::empty(),
            groups: Seq::empty(),
            criteria: Seq::empty(),
            ratings: Seq::empty(),
            matches: Seq::empty(),
        }
    }

    // ----- titles -----
    /// Row `i` of the title table holds title `id`.
    pub open spec fn is_title(self, i: int, id: int) -> bool {
        title_at(self.titles, i, id)
    }

    /// Whether title `id` exists.
    pub open spec fn has_title(self, id: int) -> bool {
        exists|i: int| #[trigger] title_at(self.titles, i, id)
    }

    /// The row that holds title `id`.
    pub open spec fn title_index(self, id: int) -> int {
        choose|i: int| #[trigger] title_at(self.titles, i, id)
    }

    /// The name of title `id`.
    pub open spec fn title_name(self, id: int) -> Seq<char> {
        self.titles[self.title_index(id)].name@
    }

    // ----- groups -----
    /// Row `i` of the group table holds group `id`.
    pub open spec fn is_group(self, i: int, id: int) -> bool {
        group_at(self.groups, i, id)
    }

    /// Whether group `id` exists.
    pub open spec fn has_group(self, id: int) -> bool {
        exists|i: int| #[trigger] group_at(self.groups, i, id)
    }

    /// The row that holds group `id`.
    pub open spec fn group_index(self, id: int) -> int {
        choose|i: int| #[trigger] group_at(self.groups, i, id)
    }

    /// The name of group `id`.
    pub open spec fn group_name(self, id: int) -> Seq<char> {
        self.groups[self.group_index(id)].name@
    }

    // ----- criteria -----
    /// Row `i` of the criterion table holds criterion `id`.
    pub open spec fn is_criterion(self, i: int, id: int) -> bool {
        criterion_at(self.criteria, i, id)
    }

    /// Whether criterion `id` exists.
    pub open spec fn has_criterion(self, id: int) -> bool {
        exists|i: int| #[trigger] criterion_at(self.criteria, i, id)
    }

    /// Row `i` is the first criterion of `group`: the one a contest of that group shows.
    pub open spec fn is_lead(self, i: int, group: int) -> bool {
        lead_at(self.criteria, i, group)
    }

    /// Whether `group` has any criterion.
    pub open spec fn has_lead(self, group: int) -> bool {
        exists|i: int| #[trigger] lead_at(self.criteria, i, group)
    }

    /// The row of the first criterion of `group`.
    pub open spec fn lead_index(self, group: int) -> int {
        choose|i: int| #[trigger] lead_at(self.criteria, i, group)
    }

    /// The id of the criterion that contests of `group` show, or 0 where the group has none.
    pub open spec fn lead_id(self, group: int) -> int {
        if self.has_lead(group) {
            self.criteria[self.lead_index(group)].id as int
        } else {
            0
        }
    }

    /// The name of the criterion that contests of `group` show, empty where it has none.
    pub open spec fn lead_name(self, group: int) -> Seq<char> {
        if self.has_lead(group) {
            self.criteria[self.lead_index(group)].name@
        } else {
            Seq::empty()
        }
    }

    // ----- ratings -----
    /// Row `i` of the rating table rates `title` under `group`.
    pub open spec fn is_rating(self, i: int, group: int, title: int) -> bool {
        rating_at(self.ratings, i, group, title)
    }

    /// Whether `title` is rated under `group`.
    pub open spec fn rated(self, group: int, title: int) -> bool {
        exists|i: int| #[trigger] rating_at(self.ratings, i, group, title)
    }

    /// The row that rates `title` under `group`.
    pub open spec fn rating_index(self, group: int, title: int) -> int {
        choose|i: int| #[trigger] rating_at(self.ratings, i, group, title)
    }

    /// The rating of `title` under `group`.
    pub open spec fn rating(self, group: int, title: int) -> int {
        self.ratings[self.rating_index(group, title)].elo as int
    }

    /// The number of titles rated under `group`.
    pub open spec fn members(self, group: int) -> nat {
        self.ratings.filter(rated_under(group)).len()
    }

    /// Selects the groups under which `title` is rated.
    pub open spec fn rates(self, title: int) -> spec_fn(CriteriaGroup) -> bool {
        |g: CriteriaGroup| self.rated(g.id as int, title)
    }

    /// The groups under which `title` is rated, in table order.
    pub open spec fn groups_of(self, title: int) -> Seq<CriteriaGroup> {
        self.groups.filter(self.rates(title))
    }

    /// The criteria of `group` as they are listed, in table order.
    pub open spec fn criteria_of(self, group: int) -> Seq<CriteriaGroupItem> {
        items_under(self.criteria, group)
    }

    // ----- matches -----
    /// Row `k` of the match table records a judgment of `a` against `b` under `group`,
    /// in either order.
    pub open spec fn is_match_of(self, k: int, group: int, a: int, b: int) -> bool {
        match_at(self.matches, k, group, a, b)
    }

    /// Whether `a` and `b` have been judged against each other under `group`.
    pub open spec fn judged(self, group: int, a: int, b: int) -> bool {
        exists|k: int| #[trigger] match_at(self.matches, k, group, a, b)
    }

    // ----- validity -----
    pub open spec fn titles_distinct(self) -> bool {
        forall|i: int, j: int|
            0 <= i < j < self.titles.len() ==> self.titles[i].id != self.titles[j].id
    }

    pub open spec fn groups_distinct(self) -> bool {
        forall|i: int, j: int|
            0 <= i < j < self.groups.len() ==> self.groups[i].id != self.groups[j].id
    }

    pub open spec fn criteria_distinct(self) -> bool {
        forall|i: int, j: int|
            0 <= i < j < self.criteria.len() ==> self.criteria[i].id != self.criteria[j].id
    }

    pub open spec fn criteria_anchored(self) -> bool {
        forall|i: int|
            0 <= i < self.criteria.len() ==> self.has_group(#[trigger] self.criteria[i].group as int)
    }

    pub open spec fn ratings_distinct(self) -> bool {
        forall|i: int, j: int|
            0 <= i < j < self.ratings.len() ==> !(self.ratings[i].group == self.ratings[j].group
                && self.ratings[i].title == self.ratings[j].title)
    }

    pub open spec fn ratings_anchored(self) -> bool {
        forall|i: int|
            #![trigger self.ratings[i]]
            0 <= i < self.ratings.len() ==> self.has_title(self.ratings[i].title as int)
                && self.has_group(self.ratings[i].group as int)
    }

    pub open spec fn matches_distinct(self) -> bool {
        &&& forall|i: int|
            0 <= i < self.matches.len() ==> (#[trigger] self.matches[i]).a != self.matches[i].b
        &&& forall|i: int, j: int|
            0 <= i < j < self.matches.len() ==> !pairs(
                self.matches[i],
                self.matches[j].criteria_group as int,
                self.matches[j].a as int,
                self.matches[j].b as int,
            )
    }

    /// The invariant of a store: ids are unique in each table, a title is rated at most once
    /// under a group, criteria and ratings refer to rows that exist, and no pair of titles
    /// has been judged twice under the same group, in whichever order.
    pub open spec fn wf(self) -> bool {
        &&& self.titles_distinct()
        &&& self.groups_distinct()
        &&& self.criteria_distinct()
        &&& self.criteria_anchored()
        &&& self.ratings_distinct()
        &&& self.ratings_anchored()
        &&& self.matches_distinct()
    }

    // ----- matchmaking -----
    /// Whether `a` and `b` may be drawn against each other under `group`: both are rated
    /// there and they have not met under it.
    pub open spec fn eligible(self, group: int, a: int, b: int) -> bool {
        a != b && self.rated(group, a) && self.rated(group, b) && !self.judged(group, a, b)
    }

    /// The rating gap between `a` and `b` under `group`.
    pub open spec fn gap(self, group: int, a: int, b: int) -> int {
        distance(self.rating(group, a), self.rating(group, b))
    }

    /// Whether the pair `a`, `b` is drawn no later than the pair `x`, `y`.
    pub open spec fn no_later(self, group: int, a: int, b: int, x: int, y: int) -> bool {
        key_le(self.gap(group, a, b), a, b, self.gap(group, x, y), x, y)
    }

    /// Whether `a`, `b` is the pair to draw next under `group`: the eligible pair with the
    /// smallest rating gap and, among those, the lowest ids; `a` is the lower id.
    pub open spec fn is_next_pair(self, group: int, a: int, b: int) -> bool {
        &&& a < b
        &&& self.eligible(group, a, b)
        &&& forall|x: int, y: int|
            x < y && #[trigger] self.eligible(group, x, y) ==> self.no_later(group, a, b, x, y)
    }

    /// Whether `c` shows the pair `a`, `b` of `group` as the store holds it: ids, names and
    /// current ratings of both titles, the group and its name, and the group's first
    /// criterion.
    pub open spec fn presents(self, group: int, a: int, b: int, c: Contest) -> bool {
        &&& c.a.id == a
        &&& c.a.elo == self.rating(group, a)
        &&& c.a.name@ == self.title_name(a)
        &&& c.b.id == b
        &&& c.b.elo == self.rating(group, b)
        &&& c.b.name@ == self.title_name(b)
        &&& c.criterion.group == group
        &&& c.criterion.group_name@ == self.group_name(group)
        &&& c.criterion.id == self.lead_id(group)
        &&& c.criterion.name@ == self.lead_name(group)
    }

    /// Whether rating rows `p` and `q` are two titles of `group` that have not met under it.
    pub open spec fn contend(self, group: int, p: int, q: int) -> bool {
        &&& 0 <= p < self.ratings.len()
        &&& 0 <= q < self.ratings.len()
        &&& p != q
        &&& self.ratings[p].group == group
        &&& self.ratings[q].group == group
        &&& !self.judged(group, self.ratings[p].title as int, self.ratings[q].title as int)
    }

    /// Whether the titles of rows `bp`, `bq` are drawn no later than those of rows `p`, `q`.
    pub open spec fn rows_no_later(self, bp: int, bq: int, p: int, q: int) -> bool {
        key_le(
            distance(self.ratings[bp].elo as int, self.ratings[bq].elo as int),
            lower(self.ratings[bp].title as int, self.ratings[bq].title as int),
            upper(self.ratings[bp].title as int, self.ratings[bq].title as int),
            distance(self.ratings[p].elo as int, self.ratings[q].elo as int),
            lower(self.ratings[p].title as int, self.ratings[q].title as int),
            upper(self.ratings[p].title as int, self.ratings[q].title as int),
        )
    }

    /// The group that a draw is made from: the pinned one, or else the contested group that
    /// the number `draw` falls on; none where no group is contested.
    pub open spec fn drawn_group(self, pin: Option<i32>, draw: u64) -> Option<int> {
        match pin {
            Some(g) => Some(g as int),
            None => if self.contested_groups().len() == 0 {
                None
            } else {
                Some(
                    self.contested_groups()[(draw as int) % (
                    self.contested_groups().len() as int)].id as int,
                )
            },
        }
    }

    /// Whether nothing is left to compare under `group`.
    pub open spec fn exhausted(self, group: int) -> bool {
        forall|x: int, y: int| !#[trigger] self.eligible(group, x, y)
    }

    /// The groups among which an unpinned draw chooses: those with two or more rated titles,
    /// in table order.
    pub open spec fn contested_groups(self) -> Seq<CriteriaGroup> {
        self.groups.filter(self.contested())
    }

    /// Selects the groups with two or more rated titles.
    pub open spec fn contested(self) -> spec_fn(CriteriaGroup) -> bool {
        |g: CriteriaGroup| self.members(g.id as int) >= 2
    }

    // ----- rankings -----
    /// Whether rating row `i` belongs to a ranking: every row does where no group is asked
    /// for, else the rows of groups with the name asked for.
    pub open spec fn listed(self, i: int, filter: Option<Seq<char>>) -> bool {
        0 <= i < self.ratings.len() && match filter {
            None => true,
            Some(name) => self.group_name(self.ratings[i].group as int) == name,
        }
    }

    /// Whether rating row `i` stands before row `j` in a ranking: the higher rating first,
    /// and among equal ratings the row that was stored first.
    pub open spec fn outranks(self, i: int, j: int) -> bool {
        self.ratings[i].elo > self.ratings[j].elo || (self.ratings[i].elo == self.ratings[j].elo
            && i < j)
    }

    /// The order `order` with row `i` put in its place.
    pub open spec fn placed(self, order: Seq<int>, i: int) -> Seq<int>
        decreases order.len(),
    {
        if order.len() == 0 {
            seq![i]
        } else if self.outranks(order.last(), i) {
            order.push(i)
        } else {
            self.placed(order.drop_last(), i).push(order.last())
        }
    }

    /// The ranking of the first `n` rating rows.
    pub open spec fn ranking_upto(self, n: nat, filter: Option<Seq<char>>) -> Seq<int>
        decreases n,
    {
        if n == 0 {
            Seq::empty()
        } else {
            let before = self.ranking_upto((n - 1) as nat, filter);
            if self.listed(n - 1, filter) {
                self.placed(before, n - 1)
            } else {
                before
            }
        }
    }

    /// The ranking: the listed rating rows, each once, the best first.
    pub open spec fn ranking(self, filter: Option<Seq<char>>) -> Seq<int> {
        self.ranking_upto(self.ratings.len(), filter)
    }

    /// Whether `row` is the line of a ranking that shows rating row `i`: the name of its
    /// group, the name of its title, and its rating.
    pub open spec fn shows_row(self, i: int, row: TopRow) -> bool {
        &&& row.group@ == self.group_name(self.ratings[i].group as int)
        &&& row.entry@ == self.title_name(self.ratings[i].title as int)
        &&& row.elo == self.ratings[i].elo
    }

    // ----- rating updates -----
    /// The rating table after `delta` is added to the rating of `title` under `group`.
    pub open spec fn bumped(
        ratings: Seq<Rating>,
        group: int,
        title: int,
        delta: int,
    ) -> Seq<Rating> {
        Seq::new(
            ratings.len(),
            |i: int|
                if ratings[i].group == group && ratings[i].title == title {
                    Rating {
                        title: ratings[i].title,
                        group: ratings[i].group,
                        elo: (ratings[i].elo + delta) as i32,
                    }
                } else {
                    ratings[i]
                },
        )
    }

    /// Why the judgment `m` cannot be recorded, if it cannot: a contestant that is not rated
    /// under the group, a pair that is no pair or has met before, or a rating that would
    /// leave the range of stored ratings. The first reason that applies is given.
    pub open spec fn match_fault(self, m: MatchResult) -> Option<Fault> {
        let g = m.criteria_group as int;
        if !self.rated(g, m.a as int) || !self.rated(g, m.b as int) {
            Some(Fault::NotFound)
        } else if m.a == m.b || self.judged(g, m.a as int, m.b as int) {
            Some(Fault::Conflict)
        } else if !fits(self.rating(g, m.a as int) + m.elo_change.0) || !fits(
            self.rating(g, m.b as int) + m.elo_change.1,
        ) {
            Some(Fault::OutOfRange)
        } else {
            None
        }
    }

    /// The record of the judgment that `a` scored `score` against `b` under `group`, shown
    /// under `criterion`: the rating changes follow from the ratings the store holds now.
    pub open spec fn judgment(self, group: int, criterion: int, a: int, b: int, score: Score)
        -> MatchResult {
        MatchResult {
            criteria_group: group as i32,
            criterion: criterion as i32,
            a: a as i32,
            b: b as i32,
            score,
            elo_change: (
                rating_change(self.rating(group, a), self.rating(group, b), score) as i32,
                rating_change(self.rating(group, b), self.rating(group, a), score.reversed())
                    as i32,
            ),
        }
    }

    /// The store after the judgment `m` is recorded: the record is appended to the match
    /// table and both ratings move by the recorded changes.
    pub open spec fn recorded(self, m: MatchResult) -> Ledger {
        Ledger {
            ratings: Self::bumped(
                Self::bumped(
                    self.ratings,
                    m.criteria_group as int,
                    m.a as int,
                    m.elo_change.0 as int,
                ),
                m.criteria_group as int,
                m.b as int,
                m.elo_change.1 as int,
            ),
            matches: self.matches.push(m),
            ..self
        }
    }
}

/// Listing one more criterion either appends its item or changes nothing.
pub proof fn lemma_items_step(criteria: Seq<CriterionRow>, group: int, i: int)
    requires
        0 <= i < criteria.len(),
    ensures
        items_under(criteria.take(i + 1), group) == if criteria[i].group == group {
            items_under(criteria.take(i), group).push(as_item(criteria[i]))
        } else {
            items_under(criteria.take(i), group)
        },
        items_under(criteria.take(0), group) == Seq::<CriteriaGroupItem>::empty(),
{
    lemma_filter_step(criteria, criterion_under(group), i);
    lemma_filter_empty(criteria.take(0), criterion_under(group));
    assert(items_under(criteria.take(i + 1), group) =~= if criteria[i].group == group {
        items_under(criteria.take(i), group).push(as_item(criteria[i]))
    } else {
        items_under(criteria.take(i), group)
    });
    assert(items_under(criteria.take(0), group) =~= Seq::<CriteriaGroupItem>::empty());
}

/// Appending a title leaves every criterion and every rating anchored.
pub proof fn lemma_title_appended(old: Ledger, title: Title)
    requires
        old.ratings_anchored(),
        old.criteria_anchored(),
    ensures
        (Ledger { titles: old.titles.push(title), ..old }).ratings_anchored(),
        (Ledger { titles: old.titles.push(title), ..old }).criteria_anchored(),
        (Ledger { titles: old.titles.push(title), ..old }).has_title(title.id as int),
{
    let new = Ledger { titles: old.titles.push(title), ..old };
    assert forall|i: int| 0 <= i < new.ratings.len() implies new.has_title(
        (#[trigger] new.ratings[i]).title as int,
    ) && new.has_group(new.ratings[i].group as int) by {
        let t = old.ratings[i].title as int;
        let g = old.ratings[i].group as int;
        assert(old.has_title(t));
        let k = old.title_index(t);
        assert(title_at(old.titles, k, t));
        assert(title_at(new.titles, k, t));
        assert(new.has_title(t));
        assert(old.has_group(g));
        assert(new.groups == old.groups);
        assert(new.has_group(g));
    }
    assert forall|i: int| 0 <= i < new.criteria.len() implies new.has_group(
        #[trigger] new.criteria[i].group as int,
    ) by {
        let g = old.criteria[i].group as int;
        assert(old.has_group(g));
        assert(new.groups == old.groups);
        assert(new.has_group(g));
    }
    assert(title_at(new.titles, old.titles.len() as int, title.id as int));
}

/// Appending a group leaves every criterion and every rating anchored.
pub proof fn lemma_group_appended(old: Ledger, group: CriteriaGroup)
    requires
        old.ratings_anchored(),
        old.criteria_anchored(),
    ensures
        (Ledger { groups: old.groups.push(group), ..old }).ratings_anchored(),
        (Ledger { groups: old.groups.push(group), ..old }).criteria_anchored(),
        (Ledger { groups: old.groups.push(group), ..old }).has_group(group.id as int),
{
    let new = Ledger { groups: old.groups.push(group), ..old };
    assert forall|i: int| 0 <= i < new.ratings.len() implies new.has_title(
        (#[trigger] new.ratings[i]).title as int,
    ) && new.has_group(new.ratings[i].group as int) by {
        let t = old.ratings[i].title as int;
        let g = old.ratings[i].group as int;
        assert(old.has_group(g));
        let k = old.group_index(g);
        assert(group_at(old.groups, k, g));
        assert(group_at(new.groups, k, g));
        assert(new.has_group(g));
        assert(old.has_title(t));
        assert(new.titles == old.titles);
        assert(new.has_title(t));
    }
    assert forall|i: int| 0 <= i < new.criteria.len() implies new.has_group(
        #[trigger] new.criteria[i].group as int,
    ) by {
        let g = old.criteria[i].group as int;
        assert(old.has_group(g));
        let k = old.group_index(g);
        assert(group_at(old.groups, k, g));
        assert(group_at(new.groups, k, g));
    }
    assert(group_at(new.groups, old.groups.len() as int, group.id as int));
}

/// A given id is held by at most one row of the title table.
pub proof fn lemma_title_at(s: Ledger, i: int, id: int)
    requires
        s.titles_distinct(),
        s.is_title(i, id),
    ensures
        s.has_title(id),
        s.title_index(id) == i,
        s.title_name(id) == s.titles[i].name@,
{
    let j = s.title_index(id);
    assert(s.is_title(j, id));
    if i < j {
        assert(s.titles[i].id != s.titles[j].id);
    } else if j < i {
        assert(s.titles[j].id != s.titles[i].id);
    }
}

/// A given id is held by at most one row of the group table.
pub proof fn lemma_group_at(s: Ledger, i: int, id: int)
    requires
        s.groups_distinct(),
        s.is_group(i, id),
    ensures
        s.has_group(id),
        s.group_index(id) == i,
        s.group_name(id) == s.groups[i].name@,
{
    let j = s.group_index(id);
    assert(s.is_group(j, id));
    if i < j {
        assert(s.groups[i].id != s.groups[j].id);
    } else if j < i {
        assert(s.groups[j].id != s.groups[i].id);
    }
}

/// A title has at most one rating under a group.
pub proof fn lemma_rating_at(s: Ledger, i: int, group: int, title: int)
    requires
        s.ratings_distinct(),
        s.is_rating(i, group, title),
    ensures
        s.rated(group, title),
        s.rating_index(group, title) == i,
        s.rating(group, title) == s.ratings[i].elo,
{
    let j = s.rating_index(group, title);
    assert(s.is_rating(j, group, title));
    if i < j {
        assert(!(s.ratings[i].group == s.ratings[j].group && s.ratings[i].title
            == s.ratings[j].title));
    } else if j < i {
        assert(!(s.ratings[j].group == s.ratings[i].group && s.ratings[j].title
            == s.ratings[i].title));
    }
}

/// Recording a judgment that the store can take keeps the store valid, marks the pair as
/// judged, keeps every earlier judgment, and moves exactly the two ratings.
pub proof fn lemma_recorded(s: Ledger, m: MatchResult)
    requires
        s.wf(),
        s.match_fault(m) is None,
    ensures
        s.recorded(m).wf(),
        s.recorded(m).judged(m.criteria_group as int, m.a as int, m.b as int),
        forall|g: int, x: int, y: int| s.judged(g, x, y) ==> s.recorded(m).judged(g, x, y),
        forall|g: int, t: int| s.rated(g, t) == s.recorded(m).rated(g, t),
        s.recorded(m).rating(m.criteria_group as int, m.a as int) == s.rating(
            m.criteria_group as int,
            m.a as int,
        ) + m.elo_change.0,
        s.recorded(m).rating(m.criteria_group as int, m.b as int) == s.rating(
            m.criteria_group as int,
            m.b as int,
        ) + m.elo_change.1,
        forall|g: int, t: int|
            s.rated(g, t) && !(g == m.criteria_group && (t == m.a || t == m.b)) ==> s.recorded(
                m,
            ).rating(g, t) == s.rating(g, t),
{
    let n = s.recorded(m);
    let grp = m.criteria_group as int;
    let ia = s.rating_index(grp, m.a as int);
    let ib = s.rating_index(grp, m.b as int);
    assert(rating_at(s.ratings, ia, grp, m.a as int));
    assert(rating_at(s.ratings, ib, grp, m.b as int));
    lemma_rating_at(s, ia, grp, m.a as int);
    lemma_rating_at(s, ib, grp, m.b as int);
    assert(n.ratings.len() == s.ratings.len());
    assert forall|i: int| 0 <= i < s.ratings.len() implies (#[trigger] n.ratings[i]).title
        == s.ratings[i].title && n.ratings[i].group == s.ratings[i].group by {}
    assert forall|i: int, g: int, t: int| #[trigger]
        rating_at(s.ratings, i, g, t) == rating_at(n.ratings, i, g, t) by {}
    assert forall|g: int, t: int| s.rated(g, t) == n.rated(g, t) by {
        if s.rated(g, t) {
            let i = s.rating_index(g, t);
            assert(rating_at(n.ratings, i, g, t));
        }
        if n.rated(g, t) {
            let i = n.rating_index(g, t);
            assert(rating_at(s.ratings, i, g, t));
        }
    }
    assert(n.ratings_distinct());
    assert forall|i: int| 0 <= i < n.ratings.len() implies n.has_title(
        (#[trigger] n.ratings[i]).title as int,
    ) && n.has_group(n.ratings[i].group as int) by {
        let t = s.ratings[i].title as int;
        let g = s.ratings[i].group as int;
        assert(n.ratings[i].title == t && n.ratings[i].group == g);
        assert(s.has_title(t));
        assert(s.has_group(g));
        assert(n.titles == s.titles);
        assert(n.groups == s.groups);
        assert(title_at(n.titles, s.title_index(t), t));
        assert(group_at(n.groups, s.group_index(g), g));
    }
    assert forall|i: int| 0 <= i < s.matches.len() implies !pairs(
        #[trigger] s.matches[i],
        grp,
        m.a as int,
        m.b as int,
    ) by {
        assert(!match_at(s.matches, i, grp, m.a as int, m.b as int));
    }
    assert(n.matches_distinct());
    assert(match_at(n.matches, s.matches.len() as int, grp, m.a as int, m.b as int));
    assert forall|g: int, x: int, y: int| s.judged(g, x, y) implies n.judged(g, x, y) by {
        let k = choose|k: int| #[trigger] match_at(s.matches, k, g, x, y);
        assert(match_at(n.matches, k, g, x, y));
    }
    assert(rating_at(n.ratings, ia, grp, m.a as int));
    assert(rating_at(n.ratings, ib, grp, m.b as int));
    lemma_rating_at(n, ia, grp, m.a as int);
    lemma_rating_at(n, ib, grp, m.b as int);
    assert forall|g: int, t: int|
        s.rated(g, t) && !(g == m.criteria_group && (t == m.a || t == m.b)) implies n.rating(g, t)
        == s.rating(g, t) by {
        let i = s.rating_index(g, t);
        assert(rating_at(s.ratings, i, g, t));
        assert(rating_at(n.ratings, i, g, t));
        lemma_rating_at(s, i, g, t);
        lemma_rating_at(n, i, g, t);
    }
}

/// Whether `order` lists rows in ranking order: each row stands before all that follow.
pub open spec fn ranked(s: Ledger, order: Seq<int>) -> bool {
    forall|p: int, q: int| 0 <= p < q < order.len() ==> s.outranks(order[p], order[q])
}

/// Putting a row in its place inserts it behind the last row that stands before it.
pub proof fn lemma_placed_at(s: Ledger, order: Seq<int>, i: int, k: int)
    requires
        0 <= k <= order.len(),
        forall|j: int| k <= j < order.len() ==> !s.outranks(#[trigger] order[j], i),
        k > 0 ==> s.outranks(order[k - 1], i),
    ensures
        s.placed(order, i) == order.insert(k, i),
    decreases order.len(),
{
    if order.len() == 0 {
        assert(order.insert(k, i) =~= seq![i]);
    } else if k == order.len() {
        assert(order.insert(k, i) =~= order.push(i));
    } else {
        assert(!s.outranks(order[order.len() - 1], i));
        lemma_placed_at(s, order.drop_last(), i, k);
        assert(order.drop_last().insert(k, i).push(order.last()) =~= order.insert(k, i));
    }
}

/// A ranking holds exactly the listed rows, each once, in ranking order.
pub proof fn lemma_ranking_upto(s: Ledger, n: nat, filter: Option<Seq<char>>)
    requires
        n <= s.ratings.len(),
    ensures
        ranked(s, s.ranking_upto(n, filter)),
        forall|k: int|
            0 <= k < s.ranking_upto(n, filter).len() ==> 0 <= #[trigger] s.ranking_upto(
                n,
                filter,
            )[k] < n && s.listed(s.ranking_upto(n, filter)[k], filter),
        forall|i: int|
            0 <= i < n && s.listed(i, filter) ==> #[trigger] s.ranking_upto(n, filter).contains(i),
        s.ranking_upto(n, filter).len() <= n,
    decreases n,
{
    if n > 0 {
        let before = s.ranking_upto((n - 1) as nat, filter);
        lemma_ranking_upto(s, (n - 1) as nat, filter);
        let after = s.ranking_upto(n, filter);
        if s.listed(n - 1, filter) {
            let i = n - 1;
            lemma_placed_sorted(s, before, i);
            assert forall|j: int| 0 <= j < n && s.listed(j, filter) implies after.contains(j) by {
                if j < n - 1 {
                    assert(before.contains(j));
                }
            }
        } else {
            assert forall|j: int| 0 <= j < n && s.listed(j, filter) implies after.contains(j) by {
                assert(before.contains(j));
            }
        }
    }
}

/// Putting a row in its place keeps a ranking in order and adds just that row.
pub proof fn lemma_placed_sorted(s: Ledger, order: Seq<int>, i: int)
    requires
        ranked(s, order),
        forall|k: int| 0 <= k < order.len() ==> #[trigger] order[k] < i,
    ensures
        ranked(s, s.placed(order, i)),
        s.placed(order, i).len() == order.len() + 1,
        s.placed(order, i).contains(i),
        forall|x: int| order.contains(x) ==> s.placed(order, i).contains(x),
        forall|k: int|
            0 <= k < s.placed(order, i).len() ==> #[trigger] s.placed(order, i)[k] == i
                || order.contains(s.placed(order, i)[k]),
    decreases order.len(),
{
    let out = s.placed(order, i);
    if order.len() == 0 {
        assert(out[0] == i);
    } else if s.outranks(order.last(), i) {
        assert(out[order.len() as int] == i);
        assert forall|p: int, q: int| 0 <= p < q < out.len() implies s.outranks(out[p], out[q]) by {
            if q == order.len() {
                if p < order.len() - 1 {
                    assert(s.outranks(order[p], order[order.len() - 1]));
                }
            }
        }
        assert forall|x: int| order.contains(x) implies out.contains(x) by {
            let k = choose|k: int| 0 <= k < order.len() && order[k] == x;
            assert(out[k] == x);
        }
        assert forall|k: int| 0 <= k < out.len() implies #[trigger] out[k] == i || order.contains(
            out[k],
        ) by {
            if k < order.len() {
                assert(order[k] == out[k]);
            }
        }
    } else {
        let rest = order.drop_last();
        let last = order.last();
        assert forall|p: int, q: int| 0 <= p < q < rest.len() implies s.outranks(rest[p], rest[q]) by {
            assert(s.outranks(order[p], order[q]));
        }
        assert forall|k: int| 0 <= k < rest.len() implies #[trigger] rest[k] < i by {
            assert(order[k] < i);
        }
        lemma_placed_sorted(s, rest, i);
        let inner = s.placed(rest, i);
        assert(out == inner.push(last));
        assert(order[order.len() - 1] < i);
        assert forall|p: int, q: int| 0 <= p < q < out.len() implies s.outranks(out[p], out[q]) by {
            if q == inner.len() {
                if inner[p] == i {
                    assert(s.outranks(i, last));
                } else {
                    assert(rest.contains(inner[p]));
                    let k = choose|k: int| 0 <= k < rest.len() && rest[k] == inner[p];
                    assert(s.outranks(order[k], order[order.len() - 1]));
                }
            } else {
                assert(s.outranks(inner[p], inner[q]));
            }
        }
        let w = choose|w: int| 0 <= w < inner.len() && inner[w] == i;
        assert(out[w] == i);
        assert forall|x: int| order.contains(x) implies out.contains(x) by {
            let k = choose|k: int| 0 <= k < order.len() && order[k] == x;
            if k == order.len() - 1 {
                assert(out[inner.len() as int] == x);
            } else {
                assert(rest[k] == x);
                assert(rest.contains(x));
                assert(inner.contains(x));
                let j = choose|j: int| 0 <= j < inner.len() && inner[j] == x;
                assert(out[j] == x);
            }
        }
        assert forall|k: int| 0 <= k < out.len() implies #[trigger] out[k] == i || order.contains(
            out[k],
        ) by {
            if k < inner.len() {
                assert(out[k] == inner[k]);
                if inner[k] != i {
                    assert(rest.contains(inner[k]));
                    let j = choose|j: int| 0 <= j < rest.len() && rest[j] == inner[k];
                    assert(order[j] == inner[k]);
                }
            } else {
                assert(order[order.len() - 1] == out[k]);
            }
        }
    }
}

/// Row `i` of a group table is the first group named `name`.
pub open spec fn named_at(groups: Seq<CriteriaGroup>, i: int, name: Seq<char>) -> bool {
    &&& 0 <= i < groups.len()
    &&& groups[i].name@ == name
    &&& forall|j: int| 0 <= j < i ==> (#[trigger] groups[j]).name@ != name
}

/// Row `k` of a rating table is held under `group`.
pub open spec fn rating_under_at(ratings: Seq<Rating>, k: int, group: int) -> bool {
    0 <= k < ratings.len() && ratings[k].group == group
}

/// Row `k` of a match table is a judgment under `group`.
pub open spec fn match_under_at(matches: Seq<MatchResult>, k: int, group: int) -> bool {
    0 <= k < matches.len() && matches[k].criteria_group == group
}

/// Row `k` of a match table was shown under criterion `criterion`.
pub open spec fn match_shown_at(matches: Seq<MatchResult>, k: int, criterion: int) -> bool {
    0 <= k < matches.len() && matches[k].criterion == criterion
}

/// Whether any criterion, rating or judgment refers to `group`.
pub open spec fn group_in_use(s: Ledger, group: int) -> bool {
    ||| exists|k: int| #[trigger] criterion_in(s.criteria, k, group)
    ||| exists|k: int| #[trigger] rating_under_at(s.ratings, k, group)
    ||| exists|k: int| #[trigger] match_under_at(s.matches, k, group)
}

/// Whether any judgment was shown under `criterion`.
pub open spec fn criterion_in_use(s: Ledger, criterion: int) -> bool {
    exists|k: int| #[trigger] match_shown_at(s.matches, k, criterion)
}

/// Selects the titles that `ratings` does not rate under `group`.
pub open spec fn unrated_under(ratings: Seq<Rating>, group: int) -> spec_fn(Title) -> bool {
    |t: Title| !(exists|k: int| #[trigger] rating_at(ratings, k, group, t.id as int))
}

/// The baseline rating of a title under `group`.
pub open spec fn baseline_of(t: Title, group: int) -> Rating {
    Rating { title: t.id, group: group as i32, elo: BASELINE }
}

/// The ratings that rate under `group`, from the baseline, every title among `titles` that
/// `ratings` does not rate there yet, in table order.
pub open spec fn fresh_ratings(titles: Seq<Title>, ratings: Seq<Rating>, group: int) -> Seq<
    Rating,
> {
    titles.filter(unrated_under(ratings, group)).map_values(|t: Title| baseline_of(t, group))
}

/// Looking at one more title either adds its baseline rating or changes nothing.
pub proof fn lemma_fresh_step(titles: Seq<Title>, ratings: Seq<Rating>, group: int, i: int)
    requires
        0 <= i < titles.len(),
    ensures
        fresh_ratings(titles.take(i + 1), ratings, group) == if unrated_under(ratings, group)(
            titles[i],
        ) {
            fresh_ratings(titles.take(i), ratings, group).push(baseline_of(titles[i], group))
        } else {
            fresh_ratings(titles.take(i), ratings, group)
        },
        fresh_ratings(titles.take(0), ratings, group) == Seq::<Rating>::empty(),
{
    lemma_filter_step(titles, unrated_under(ratings, group), i);
    lemma_filter_empty(titles.take(0), unrated_under(ratings, group));
    assert(fresh_ratings(titles.take(i + 1), ratings, group) =~= if unrated_under(ratings, group)(
        titles[i],
    ) {
        fresh_ratings(titles.take(i), ratings, group).push(baseline_of(titles[i], group))
    } else {
        fresh_ratings(titles.take(i), ratings, group)
    });
    assert(fresh_ratings(titles.take(0), ratings, group) =~= Seq::<Rating>::empty());
}

/// Whether `n` is the id that the next row of a table gets: one more than the highest id in
/// use, and 1 in an empty table.
pub open spec fn is_next_id(ids: Seq<int>, n: int) -> bool {
    &&& n >= 1
    &&& forall|i: int| 0 <= i < ids.len() ==> #[trigger] ids[i] < n
    &&& n == 1 || exists|i: int| 0 <= i < ids.len() && #[trigger] ids[i] == n - 1
}

/// The ids of a title table.
pub open spec fn title_ids(titles: Seq<Title>) -> Seq<int> {
    Seq::new(titles.len(), |i: int| titles[i].id as int)
}

/// The ids of a group table.
pub open spec fn group_ids(groups: Seq<CriteriaGroup>) -> Seq<int> {
    Seq::new(groups.len(), |i: int| groups[i].id as int)
}

/// The ids of a criterion table.
pub open spec fn criterion_ids(criteria: Seq<CriterionRow>) -> Seq<int> {
    Seq::new(criteria.len(), |i: int| criteria[i].id as int)
}

/// Renaming titles, or any change that keeps the id of every title row, keeps the store
/// valid.
pub proof fn lemma_titles_relabelled(old: Ledger, titles: Seq<Title>)
    requires
        old.wf(),
        titles.len() == old.titles.len(),
        forall|i: int| 0 <= i < titles.len() ==> (#[trigger] titles[i]).id == old.titles[i].id,
    ensures
        (Ledger { titles, ..old }).wf(),
        forall|id: int| old.has_title(id) == (Ledger { titles, ..old }).has_title(id),
{
    let new = Ledger { titles, ..old };
    assert forall|i: int, id: int| #[trigger] title_at(old.titles, i, id) == title_at(titles, i, id) by {}
    assert forall|id: int| old.has_title(id) == new.has_title(id) by {
        if old.has_title(id) {
            assert(title_at(titles, old.title_index(id), id));
        }
        if new.has_title(id) {
            assert(title_at(old.titles, new.title_index(id), id));
        }
    }
    assert forall|i: int| 0 <= i < new.ratings.len() implies new.has_title(
        (#[trigger] new.ratings[i]).title as int,
    ) && new.has_group(new.ratings[i].group as int) by {
        assert(old.has_title(old.ratings[i].title as int));
        assert(old.has_group(old.ratings[i].group as int));
        assert(new.groups == old.groups);
        assert(group_at(new.groups, old.group_index(old.ratings[i].group as int), old.ratings[i].group as int));
    }
    assert forall|i: int| 0 <= i < new.criteria.len() implies new.has_group(
        #[trigger] new.criteria[i].group as int,
    ) by {
        assert(old.has_group(old.criteria[i].group as int));
        assert(new.groups == old.groups);
        assert(group_at(new.groups, old.group_index(old.criteria[i].group as int), old.criteria[i].group as int));
    }
}

/// Renaming groups, or any change that keeps the id of every group row, keeps the store
/// valid.
pub proof fn lemma_groups_relabelled(old: Ledger, groups: Seq<CriteriaGroup>)
    requires
        old.wf(),
        groups.len() == old.groups.len(),
        forall|i: int| 0 <= i < groups.len() ==> (#[trigger] groups[i]).id == old.groups[i].id,
    ensures
        (Ledger { groups, ..old }).wf(),
{
    let new = Ledger { groups, ..old };
    assert forall|i: int, id: int| #[trigger] group_at(old.groups, i, id) == group_at(groups, i, id) by {}
    assert forall|i: int| 0 <= i < new.ratings.len() implies new.has_title(
        (#[trigger] new.ratings[i]).title as int,
    ) && new.has_group(new.ratings[i].group as int) by {
        let t = old.ratings[i].title as int;
        let g = old.ratings[i].group as int;
        assert(old.has_title(t));
        assert(old.has_group(g));
        assert(new.titles == old.titles);
        assert(title_at(new.titles, old.title_index(t), t));
        let k = old.group_index(g);
        assert(group_at(old.groups, k, g));
        assert(group_at(new.groups, k, g));
    }
    assert forall|i: int| 0 <= i < new.criteria.len() implies new.has_group(
        #[trigger] new.criteria[i].group as int,
    ) by {
        let g = old.criteria[i].group as int;
        assert(old.has_group(g));
        let k = old.group_index(g);
        assert(group_at(old.groups, k, g));
        assert(group_at(new.groups, k, g));
    }
}

/// Changing criteria without touching their ids or groups, or removing one, keeps the
/// store valid.
pub proof fn lemma_criteria_changed(old: Ledger, criteria: Seq<CriterionRow>)
    requires
        old.wf(),
        forall|i: int, j: int|
            0 <= i < j < criteria.len() ==> criteria[i].id != criteria[j].id,
        forall|i: int|
            0 <= i < criteria.len() ==> old.has_group(#[trigger] criteria[i].group as int),
    ensures
        (Ledger { criteria, ..old }).wf(),
{
    let new = Ledger { criteria, ..old };
    assert forall|i: int| 0 <= i < new.ratings.len() implies new.has_title(
        (#[trigger] new.ratings[i]).title as int,
    ) && new.has_group(new.ratings[i].group as int) by {
        assert(old.has_title(old.ratings[i].title as int));
        assert(old.has_group(old.ratings[i].group as int));
        assert(new.titles == old.titles);
        assert(new.groups == old.groups);
        assert(title_at(new.titles, old.title_index(old.ratings[i].title as int), old.ratings[i].title as int));
        assert(group_at(new.groups, old.group_index(old.ratings[i].group as int), old.ratings[i].group as int));
    }
    assert forall|i: int| 0 <= i < new.criteria.len() implies new.has_group(
        #[trigger] new.criteria[i].group as int,
    ) by {
        let g = criteria[i].group as int;
        assert(old.has_group(g));
        assert(new.groups == old.groups);
        assert(group_at(new.groups, old.group_index(g), g));
    }
}

/// Removing a group that no criterion and no rating refers to keeps the store valid.
pub proof fn lemma_group_removed(old: Ledger, i: int)
    requires
        old.wf(),
        0 <= i < old.groups.len(),
        forall|k: int| 0 <= k < old.criteria.len() ==> (#[trigger] old.criteria[k]).group
            != old.groups[i].id,
        forall|k: int| 0 <= k < old.ratings.len() ==> (#[trigger] old.ratings[k]).group
            != old.groups[i].id,
    ensures
        (Ledger { groups: old.groups.remove(i), ..old }).wf(),
{
    let groups = old.groups.remove(i);
    let new = Ledger { groups, ..old };
    assert forall|g: int| g != old.groups[i].id && old.has_group(g) implies new.has_group(g) by {
        let k = old.group_index(g);
        assert(group_at(old.groups, k, g));
        assert(new.groups == groups);
        if k < i {
            assert(groups[k] == old.groups[k]);
            assert(group_at(new.groups, k, g));
        } else {
            assert(k > i);
            assert(groups[k - 1] == old.groups[k]);
            assert(group_at(new.groups, k - 1, g));
        }
    }
    assert forall|k: int| 0 <= k < new.ratings.len() implies new.has_title(
        (#[trigger] new.ratings[k]).title as int,
    ) && new.has_group(new.ratings[k].group as int) by {
        assert(old.has_title(old.ratings[k].title as int));
        assert(old.has_group(old.ratings[k].group as int));
        assert(new.titles == old.titles);
        assert(title_at(new.titles, old.title_index(old.ratings[k].title as int), old.ratings[k].title as int));
    }
    assert forall|k: int| 0 <= k < new.criteria.len() implies new.has_group(
        #[trigger] new.criteria[k].group as int,
    ) by {
        assert(old.has_group(old.criteria[k].group as int));
    }
}

/// Row `k` of a rating table rates `title`.
pub open spec fn rating_of_title_at(ratings: Seq<Rating>, k: int, title: int) -> bool {
    0 <= k < ratings.len() && ratings[k].title == title
}

/// Row `k` of a match table is a judgment of `title` under `group`.
pub open spec fn judgment_of_at(matches: Seq<MatchResult>, k: int, group: int, title: int) -> bool {
    0 <= k < matches.len() && matches[k].criteria_group == group && (matches[k].a == title
        || matches[k].b == title)
}

/// Row `k` of a match table is a judgment of `title`.
pub open spec fn judgment_with_at(matches: Seq<MatchResult>, k: int, title: int) -> bool {
    0 <= k < matches.len() && (matches[k].a == title || matches[k].b == title)
}

/// Whether any rating or judgment refers to `title`.
pub open spec fn title_in_use(s: Ledger, title: int) -> bool {
    ||| exists|k: int| #[trigger] rating_of_title_at(s.ratings, k, title)
    ||| exists|k: int| #[trigger] judgment_with_at(s.matches, k, title)
}

/// Whether `title` has been judged under `group`.
pub open spec fn has_judgments(s: Ledger, group: int, title: int) -> bool {
    exists|k: int| #[trigger] judgment_of_at(s.matches, k, group, title)
}

/// Removing a title that no rating refers to keeps the store valid.
pub proof fn lemma_title_removed(old: Ledger, i: int)
    requires
        old.wf(),
        0 <= i < old.titles.len(),
        forall|k: int| 0 <= k < old.ratings.len() ==> (#[trigger] old.ratings[k]).title
            != old.titles[i].id,
    ensures
        (Ledger { titles: old.titles.remove(i), ..old }).wf(),
{
    let titles = old.titles.remove(i);
    let new = Ledger { titles, ..old };
    assert forall|t: int| t != old.titles[i].id && old.has_title(t) implies new.has_title(t) by {
        let k = old.title_index(t);
        assert(title_at(old.titles, k, t));
        assert(new.titles == titles);
        if k < i {
            assert(titles[k] == old.titles[k]);
            assert(title_at(new.titles, k, t));
        } else {
            assert(k > i);
            assert(titles[k - 1] == old.titles[k]);
            assert(title_at(new.titles, k - 1, t));
        }
    }
    assert forall|k: int| 0 <= k < new.ratings.len() implies new.has_title(
        (#[trigger] new.ratings[k]).title as int,
    ) && new.has_group(new.ratings[k].group as int) by {
        let g = old.ratings[k].group as int;
        assert(old.has_title(old.ratings[k].title as int));
        assert(old.has_group(g));
        assert(new.groups == old.groups);
        assert(group_at(new.groups, old.group_index(g), g));
    }
    assert forall|k: int| 0 <= k < new.criteria.len() implies new.has_group(
        #[trigger] new.criteria[k].group as int,
    ) by {
        let g = old.criteria[k].group as int;
        assert(old.has_group(g));
        assert(new.groups == old.groups);
        assert(group_at(new.groups, old.group_index(g), g));
    }
}

/// Removing a rating keeps the store valid.
pub proof fn lemma_rating_removed(old: Ledger, i: int)
    requires
        old.wf(),
        0 <= i < old.ratings.len(),
    ensures
        (Ledger { ratings: old.ratings.remove(i), ..old }).wf(),
{
    let ratings = old.ratings.remove(i);
    let new = Ledger { ratings, ..old };
    assert forall|p: int, q: int| 0 <= p < q < ratings.len() implies !(ratings[p].group
        == ratings[q].group && ratings[p].title == ratings[q].title) by {
        let pp = if p < i { p } else { p + 1 };
        let qq = if q < i { q } else { q + 1 };
        assert(!(old.ratings[pp].group == old.ratings[qq].group && old.ratings[pp].title
            == old.ratings[qq].title));
    }
    assert forall|k: int| 0 <= k < new.ratings.len() implies new.has_title(
        (#[trigger] new.ratings[k]).title as int,
    ) && new.has_group(new.ratings[k].group as int) by {
        let kk = if k < i { k } else { k + 1 };
        let t = old.ratings[kk].title as int;
        let g = old.ratings[kk].group as int;
        assert(old.has_title(t));
        assert(old.has_group(g));
        assert(new.titles == old.titles);
        assert(new.groups == old.groups);
        assert(title_at(new.titles, old.title_index(t), t));
        assert(group_at(new.groups, old.group_index(g), g));
    }
    assert forall|k: int| 0 <= k < new.criteria.len() implies new.has_group(
        #[trigger] new.criteria[k].group as int,
    ) by {
        let g = old.criteria[k].group as int;
        assert(old.has_group(g));
        assert(new.groups == old.groups);
        assert(group_at(new.groups, old.group_index(g), g));
    }
}

/// Appending a rating for a title and a group that exist, where the title is not rated
/// under the group yet, keeps the store valid.
pub proof fn lemma_rating_appended(old: Ledger, rating: Rating)
    requires
        old.wf(),
        old.has_title(rating.title as int),
        old.has_group(rating.group as int),
        !old.rated(rating.group as int, rating.title as int),
    ensures
        (Ledger { ratings: old.ratings.push(rating), ..old }).wf(),
        forall|g: int, t: int|
            (Ledger { ratings: old.ratings.push(rating), ..old }).rated(g, t) == (old.rated(g, t)
                || (g == rating.group && t == rating.title)),
{
    let new = Ledger { ratings: old.ratings.push(rating), ..old };
    assert forall|k: int| 0 <= k < old.ratings.len() implies !(old.ratings[k].group
        == rating.group && (#[trigger] old.ratings[k]).title == rating.title) by {
        assert(!rating_at(old.ratings, k, rating.group as int, rating.title as int));
    }
    assert forall|k: int| 0 <= k < new.ratings.len() implies new.has_title(
        (#[trigger] new.ratings[k]).title as int,
    ) && new.has_group(new.ratings[k].group as int) by {
        assert(new.titles == old.titles);
        assert(new.groups == old.groups);
        let t = new.ratings[k].title as int;
        let g = new.ratings[k].group as int;
        if k < old.ratings.len() {
            assert(old.has_title(old.ratings[k].title as int));
            assert(old.has_group(old.ratings[k].group as int));
        }
        assert(title_at(new.titles, old.title_index(t), t));
        assert(group_at(new.groups, old.group_index(g), g));
    }
    assert forall|g: int, t: int| new.rated(g, t) == (old.rated(g, t) || (g == rating.group && t
        == rating.title)) by {
        if old.rated(g, t) {
            assert(rating_at(new.ratings, old.rating_index(g, t), g, t));
        }
        if g == rating.group && t == rating.title {
            assert(rating_at(new.ratings, old.ratings.len() as int, g, t));
        }
        if new.rated(g, t) {
            let k = new.rating_index(g, t);
            if k < old.ratings.len() {
                assert(rating_at(old.ratings, k, g, t));
            }
        }
    }
}

/// Having met is mutual.
pub proof fn lemma_judged_symmetric(s: Ledger, group: int, a: int, b: int)
    ensures
        s.judged(group, a, b) == s.judged(group, b, a),
{
    if s.judged(group, a, b) {
        let k = choose|k: int| #[trigger] match_at(s.matches, k, group, a, b);
        assert(match_at(s.matches, k, group, b, a));
    }
    if s.judged(group, b, a) {
        let k = choose|k: int| #[trigger] match_at(s.matches, k, group, b, a);
        assert(match_at(s.matches, k, group, a, b));
    }
}

/// Where no two rows of a group can meet, the group is exhausted.
pub proof fn lemma_no_rows_left(s: Ledger, group: int)
    requires
        s.wf(),
        forall|p: int, q: int| 0 <= p < q < s.ratings.len() ==> !#[trigger] s.contend(group, p, q),
    ensures
        s.exhausted(group),
{
    assert forall|x: int, y: int| !#[trigger] s.eligible(group, x, y) by {
        if s.eligible(group, x, y) {
            let p = s.rating_index(group, x);
            let q = s.rating_index(group, y);
            assert(rating_at(s.ratings, p, group, x));
            assert(rating_at(s.ratings, q, group, y));
            lemma_judged_symmetric(s, group, x, y);
            if p < q {
                assert(s.contend(group, p, q));
            } else {
                assert(s.contend(group, q, p));
            }
        }
    }
}

/// The best pair of rows is the pair to draw next.
pub proof fn lemma_best_rows(s: Ledger, group: int, bp: int, bq: int)
    requires
        s.wf(),
        s.contend(group, bp, bq),
        s.ratings[bp].title < s.ratings[bq].title,
        forall|p: int, q: int|
            0 <= p < q < s.ratings.len() && #[trigger] s.contend(group, p, q)
                ==> s.rows_no_later(bp, bq, p, q),
    ensures
        s.is_next_pair(group, s.ratings[bp].title as int, s.ratings[bq].title as int),
        s.rating(group, s.ratings[bp].title as int) == s.ratings[bp].elo,
        s.rating(group, s.ratings[bq].title as int) == s.ratings[bq].elo,
{
    let a = s.ratings[bp].title as int;
    let b = s.ratings[bq].title as int;
    lemma_rating_at(s, bp, group, a);
    lemma_rating_at(s, bq, group, b);
    assert forall|x: int, y: int| x < y && #[trigger] s.eligible(group, x, y) implies s.no_later(
        group,
        a,
        b,
        x,
        y,
    ) by {
        let p = s.rating_index(group, x);
        let q = s.rating_index(group, y);
        assert(rating_at(s.ratings, p, group, x));
        assert(rating_at(s.ratings, q, group, y));
        lemma_rating_at(s, p, group, x);
        lemma_rating_at(s, q, group, y);
        lemma_judged_symmetric(s, group, x, y);
        if p < q {
            assert(s.contend(group, p, q));
            assert(s.rows_no_later(bp, bq, p, q));
        } else {
            assert(s.contend(group, q, p));
            assert(s.rows_no_later(bp, bq, q, p));
        }
    }
}

/// At most one pair is the pair to draw next.
pub proof fn lemma_next_pair_unique(s: Ledger, group: int, a: int, b: int, x: int, y: int)
    requires
        s.is_next_pair(group, a, b),
        s.is_next_pair(group, x, y),
    ensures
        a == x,
        b == y,
{
    assert(s.no_later(group, a, b, x, y));
    assert(s.no_later(group, x, y, a, b));
}

/// A group has at most one first criterion.
pub proof fn lemma_lead_at(s: Ledger, i: int, group: int)
    requires
        s.is_lead(i, group),
    ensures
        s.has_lead(group),
        s.lead_index(group) == i,
        s.lead_id(group) == s.criteria[i].id,
        s.lead_name(group) == s.criteria[i].name@,
{
    let j = s.lead_index(group);
    assert(s.is_lead(j, group));
    if i < j {
        assert(!criterion_in(s.criteria, i, group));
    } else if j < i {
        assert(!criterion_in(s.criteria, j, group));
    }
}

} // verus!
