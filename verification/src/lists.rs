//! Listings for display: what the store holds, or nothing where it cannot be read.

use vstd::prelude::*;

use crate::dto::{CriteriaGroup, CriteriaGroupItem, Title, TopRow};
use crate::seqs::page;
use crate::store::ranking::filter_of;
use crate::store::Store;

verus! {

/// How many lines of a ranking are shown at once.
pub const TOP_PAGE: usize = 30;

/// What a ranking shown for the group named `group` lists: every group where the name is
/// empty.
pub open spec fn shown_filter(group: &str) -> Option<Seq<char>> {
    if group@.len() == 0 {
        None
    } else {
        Some(group@)
    }
}

/// Lists every group.
pub fn all_groups(conn: &Store) -> (rows: Vec<CriteriaGroup>)
    ensures
        rows@ == conn@.groups,
{
    match conn.all_groups() {
        Ok(groups) => groups,
        Err(_) => Vec::new(),
    }
}

/// Lists the criteria of group `id`.
pub fn criteria(conn: &Store, id: i32) -> (rows: Vec<CriteriaGroupItem>)
    ensures
        rows@ == conn@.criteria_of(id as int),
{
    match conn.criteria(id) {
        Ok(criteria) => criteria,
        Err(_) => Vec::new(),
    }
}

/// Lists every title.
pub fn all_titles(conn: &Store) -> (rows: Vec<Title>)
    ensures
        rows@ == conn@.titles,
{
    match conn.all_titles() {
        Ok(titles) => titles,
        Err(_) => Vec::new(),
    }
}

/// Lists the groups under which title `id` is rated.
pub fn groups_by_title(conn: &Store, id: i32) -> (rows: Vec<CriteriaGroup>)
    ensures
        rows@ == conn@.groups_of(id as int),
{
    match conn.groups_by_title(id) {
        Ok(groups) => groups,
        Err(_) => Vec::new(),
    }
}

/// Reads page `page_index` of the ranking of the group named `group`, or of all groups
/// where the name is empty, thirty lines to a page.
pub fn top_rows(conn: &Store, group: &str, page_index: usize) -> (rows: Vec<TopRow>)
    requires
        conn.wf(),
    ensures
        rows@.len() == page(
            conn@.ranking(shown_filter(group)),
            TOP_PAGE as nat,
            page_index as nat,
        ).len(),
        forall|k: int|
            0 <= k < rows@.len() ==> conn@.shows_row(
                page(conn@.ranking(shown_filter(group)), TOP_PAGE as nat, page_index as nat)[k],
                #[trigger] rows@[k],
            ),
{
    let filter: Option<&str> = if group.is_empty() {
        None
    } else {
        Some(group)
    };
    assert(filter_of(filter) == shown_filter(group));
    match conn.top(filter, TOP_PAGE, page_index) {
        Ok(rows) => rows,
        Err(_) => Vec::new(),
    }
}

} // verus!
