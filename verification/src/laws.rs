//! What holds of the engine as a whole, proved from the model.

use vstd::prelude::*;

use crate::dto::MatchResult;
use crate::model::{lemma_judged_symmetric, lemma_recorded, match_at, Ledger};
use crate::seqs::{lemma_page_beyond_is_empty, lemma_pages_join, page};

verus! {

/// No rematch. Once a judgment of two titles under a group is recorded, that pair is never
/// drawn again under the group, in either order, in any later state of the store, however
/// many judgments have been added to the history since.
pub proof fn lemma_no_rematch(before: Ledger, m: MatchResult, later: Ledger)
    requires
        before.wf(),
        before.match_fault(m) is None,
        before.recorded(m).matches.is_prefix_of(later.matches),
    ensures
        later.judged(m.criteria_group as int, m.a as int, m.b as int),
        !later.eligible(m.criteria_group as int, m.a as int, m.b as int),
        !later.eligible(m.criteria_group as int, m.b as int, m.a as int),
        !later.is_next_pair(m.criteria_group as int, m.a as int, m.b as int),
        !later.is_next_pair(m.criteria_group as int, m.b as int, m.a as int),
{
    let g = m.criteria_group as int;
    let k = before.matches.len() as int;
    assert(before.recorded(m).matches[k] == m);
    assert(later.matches[k] == m);
    assert(match_at(later.matches, k, g, m.a as int, m.b as int));
    lemma_judged_symmetric(later, g, m.a as int, m.b as int);
}

/// A drawn pair has not been judged: what `is_next_pair` names has no record in the
/// history, in either order.
pub proof fn lemma_next_pair_is_fresh(s: Ledger, group: int, a: int, b: int)
    requires
        s.is_next_pair(group, a, b),
    ensures
        !s.judged(group, a, b),
        !s.judged(group, b, a),
{
    lemma_judged_symmetric(s, group, a, b);
}

/// Every group with two or more rated titles is drawn for some number: an unpinned draw
/// with the number `k` falls on the `k`-th of those groups, and the numbers from `k` on, in
/// steps of the number of such groups, fall on it as well.
pub proof fn lemma_every_contested_group_is_drawn(s: Ledger, k: int, round: int)
    requires
        0 <= k < s.contested_groups().len(),
        0 <= round,
        k + round * s.contested_groups().len() <= u64::MAX,
    ensures
        s.drawn_group(None, (k + round * s.contested_groups().len()) as u64) == Some(
            s.contested_groups()[k].id as int,
        ),
{
    let n = s.contested_groups().len() as int;
    assert((k + round * n) % n == k) by (nonlinear_arith)
        requires
            0 <= k < n,
            0 <= round,
    ;
}

/// Exhaustion. A group with exactly two titles has nothing left to compare once those
/// two have been judged against each other.
pub proof fn lemma_two_titles_exhaust(s: Ledger, group: int, a: int, b: int)
    requires
        forall|t: int| s.rated(group, t) ==> t == a || t == b,
        s.judged(group, a, b),
    ensures
        s.exhausted(group),
{
    lemma_judged_symmetric(s, group, a, b);
}

/// Recording keeps the store whole: after a judgment is recorded the store is valid, the
/// record is the last of the history and every earlier record is where it was.
pub proof fn lemma_history_grows(s: Ledger, m: MatchResult)
    requires
        s.wf(),
        s.match_fault(m) is None,
    ensures
        s.recorded(m).wf(),
        s.matches.is_prefix_of(s.recorded(m).matches),
        s.recorded(m).matches.last() == m,
{
    lemma_recorded(s, m);
}

/// Pagination. Two neighbouring pages of a ranking, read one after the other, are the page
/// of twice the size that covers them; and a page that starts beyond the data is empty.
pub proof fn lemma_ranking_pages(s: Ledger, filter: Option<Seq<char>>, size: nat, index: nat)
    ensures
        page(s.ranking(filter), size, 2 * index) + page(s.ranking(filter), size, 2 * index + 1)
            == page(s.ranking(filter), 2 * size, index),
        index * size >= s.ranking(filter).len() ==> page(s.ranking(filter), size, index).len()
            == 0,
{
    lemma_pages_join(s.ranking(filter), size, index);
    if index * size >= s.ranking(filter).len() {
        lemma_page_beyond_is_empty(s.ranking(filter), size, index);
    }
}

/// A ranking lists exactly the rows asked for, each once, the higher rating first and among
/// equal ratings the row that was stored first.
pub proof fn lemma_ranking_is_sorted(s: Ledger, filter: Option<Seq<char>>)
    ensures
        forall|p: int, q: int|
            0 <= p < q < s.ranking(filter).len() ==> s.outranks(
                s.ranking(filter)[p],
                s.ranking(filter)[q],
            ),
        forall|k: int|
            0 <= k < s.ranking(filter).len() ==> s.listed(#[trigger] s.ranking(filter)[k], filter),
        forall|i: int| s.listed(i, filter) ==> #[trigger] s.ranking(filter).contains(i),
        forall|p: int, q: int|
            0 <= p < q < s.ranking(filter).len() ==> s.ranking(filter)[p] != s.ranking(filter)[q],
{
    crate::model::lemma_ranking_upto(s, s.ratings.len(), filter);
    let r = s.ranking(filter);
    assert forall|p: int, q: int| 0 <= p < q < r.len() implies r[p] != r[q] by {
        assert(s.outranks(r[p], r[q]));
    }
}

} // verus!
