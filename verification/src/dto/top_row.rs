//! One line of a ranking.

use vstd::prelude::*;

verus! {

/// A title's standing under one group: group name, title name, rating.
#[derive(Debug, Default, PartialEq, PartialOrd)]
pub struct TopRow {
    pub group: String,
    pub entry: String,
    pub elo: i32,
}

impl Clone for TopRow {
    fn clone(&self) -> (copy: Self)
        ensures
            copy == *self,
    {
        TopRow { group: self.group.clone(), entry: self.entry.clone(), elo: self.elo }
    }
}

} // verus!
