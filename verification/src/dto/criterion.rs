//! Criteria: the questions asked under a group.

use vstd::prelude::*;

verus! {

/// A criterion together with the group it belongs to, as a contest shows it.
#[derive(Debug, Default, PartialEq, PartialOrd)]
pub struct Criterion {
    pub group: i32,
    pub id: i32,
    pub name: String,
    pub group_name: String,
}

/// A request to rename a criterion.
#[derive(Debug, Default, PartialEq, PartialOrd)]
pub struct UpdateCriterion {
    pub id: i32,
    pub name: String,
}

/// A request to add a criterion to a group.
#[derive(Debug, Default, PartialEq, PartialOrd)]
pub struct NewCriterion {
    pub group: i32,
    pub name: String,
}

/// A request to remove a criterion.
#[derive(Debug, Default, PartialEq, PartialOrd, Clone, Copy)]
pub struct DeleteCriterion {
    pub id: i32,
}

impl Clone for Criterion {
    fn clone(&self) -> (copy: Self)
        ensures
            copy == *self,
    {
        Criterion {
            group: self.group,
            id: self.id,
            name: self.name.clone(),
            group_name: self.group_name.clone(),
        }
    }
}

impl Clone for UpdateCriterion {
    fn clone(&self) -> (copy: Self)
        ensures
            copy == *self,
    {
        UpdateCriterion { id: self.id, name: self.name.clone() }
    }
}

impl Clone for NewCriterion {
    fn clone(&self) -> (copy: Self)
        ensures
            copy == *self,
    {
        NewCriterion { group: self.group, name: self.name.clone() }
    }
}

} // verus!
