//! Criteria groups: the axes along which titles are rated.

use vstd::prelude::*;

verus! {

/// A named axis of comparison.
#[derive(Debug, Default, PartialEq, PartialOrd)]
pub struct CriteriaGroup {
    pub id: i32,
    pub name: String,
}

/// One criterion as it is listed under its group.
#[derive(Debug, Default, PartialEq, PartialOrd)]
pub struct CriteriaGroupItem {
    pub id: i32,
    pub name: String,
}

/// A request to rename a group.
#[derive(Debug, Default, PartialEq, PartialOrd)]
pub struct UpdateCriteriaGroup {
    pub id: i32,
    pub name: String,
}

/// A request to add a group.
#[derive(Debug, Default, PartialEq, PartialOrd)]
pub struct NewCriteriaGroup {
    pub name: String,
}

/// A request to remove a group.
#[derive(Debug, Default, PartialEq, PartialOrd, Clone, Copy)]
pub struct DeleteCriteriaGroup {
    pub id: i32,
}

/// A request to rate every title under a group.
#[derive(Debug, Default, PartialEq, PartialOrd, Clone, Copy)]
pub struct GroupAddToTiles {
    pub id: i32,
}

impl Clone for CriteriaGroup {
    fn clone(&self) -> (copy: Self)
        ensures
            copy == *self,
    {
        CriteriaGroup { id: self.id, name: self.name.clone() }
    }
}

impl Clone for CriteriaGroupItem {
    fn clone(&self) -> (copy: Self)
        ensures
            copy == *self,
    {
        CriteriaGroupItem { id: self.id, name: self.name.clone() }
    }
}

impl Clone for UpdateCriteriaGroup {
    fn clone(&self) -> (copy: Self)
        ensures
            copy == *self,
    {
        UpdateCriteriaGroup { id: self.id, name: self.name.clone() }
    }
}

impl Clone for NewCriteriaGroup {
    fn clone(&self) -> (copy: Self)
        ensures
            copy == *self,
    {
        NewCriteriaGroup { name: self.name.clone() }
    }
}

} // verus!
