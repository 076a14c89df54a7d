//! A proposed comparison between two titles.

use vstd::prelude::*;

use super::criterion::Criterion;

verus! {

/// One side of a contest: a title and its rating when the contest was drawn.
#[derive(Debug, Default, PartialEq, PartialOrd)]
pub struct Contestant {
    pub id: i32,
    pub name: String,
    pub elo: i32,
}

/// Two titles to be compared under one criterion.
#[derive(Debug, Default, PartialEq, PartialOrd)]
pub struct Contest {
    pub criterion: Criterion,
    pub a: Contestant,
    pub b: Contestant,
}

impl Clone for Contestant {
    fn clone(&self) -> (copy: Self)
        ensures
            copy == *self,
    {
        Contestant { id: self.id, name: self.name.clone(), elo: self.elo }
    }
}

impl Clone for Contest {
    fn clone(&self) -> (copy: Self)
        ensures
            copy == *self,
    {
        Contest { criterion: self.criterion.clone(), a: self.a.clone(), b: self.b.clone() }
    }
}

} // verus!
