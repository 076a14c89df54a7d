//! The record of one judgment.

use vstd::prelude::*;

use crate::elo::Score;

verus! {

/// A completed judgment: who met whom under which criterion, how `a` scored, and by how
/// much each rating moved (first `a`, then `b`).
#[derive(Debug, PartialEq, Clone, Copy)]
pub struct MatchResult {
    pub criteria_group: i32,
    pub criterion: i32,
    pub a: i32,
    pub b: i32,
    pub score: Score,
    pub elo_change: (i32, i32),
}

} // verus!
