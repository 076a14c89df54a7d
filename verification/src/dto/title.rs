//! Titles and the requests that create, rename and associate them.

use vstd::prelude::*;

verus! {

/// A title together with its criteria and a rating, as one flat record.
#[derive(Debug, Default, PartialEq, PartialOrd)]
pub struct CategoryItem {
    pub id: i32,
    pub name: String,
    pub sub_categories: Vec<String>,
    pub elo: i32,
}

/// A request to add a title together with the names of the groups it is rated in.
#[derive(Debug, Default, PartialEq, PartialOrd)]
pub struct NewCategoryItem {
    pub name: String,
    pub sub_categories: Vec<String>,
}

/// A rated entity.
#[derive(Debug, Default, PartialEq, PartialOrd)]
pub struct Title {
    pub id: i32,
    pub name: String,
}

/// A request to add a title.
#[derive(Debug, Default, PartialEq, PartialOrd)]
pub struct NewTitle {
    pub name: String,
}

/// A request to rename a title.
#[derive(Debug, Default, PartialEq, PartialOrd)]
pub struct UpdateTitle {
    pub id: i32,
    pub name: String,
}

/// A request to rate a title under a criteria group.
#[derive(Debug, Default, PartialEq, PartialOrd, Clone, Copy)]
pub struct NewTitleCriteria {
    pub title: i32,
    pub criteria: i32,
}

/// A request to remove a title.
#[derive(Debug, Default, PartialEq, PartialOrd, Clone, Copy)]
pub struct DeleteTitle {
    pub id: i32,
}

/// A request to stop rating a title under a criteria group.
#[derive(Debug, Default, PartialEq, PartialOrd, Clone, Copy)]
pub struct DeleteTitleCriteria {
    pub title: i32,
    pub criteria: i32,
}

impl Clone for Title {
    fn clone(&self) -> (copy: Self)
        ensures
            copy == *self,
    {
        Title { id: self.id, name: self.name.clone() }
    }
}

impl Clone for NewTitle {
    fn clone(&self) -> (copy: Self)
        ensures
            copy == *self,
    {
        NewTitle { name: self.name.clone() }
    }
}

impl Clone for UpdateTitle {
    fn clone(&self) -> (copy: Self)
        ensures
            copy == *self,
    {
        UpdateTitle { id: self.id, name: self.name.clone() }
    }
}

} // verus!
