//! The plain records that callers exchange with the store.

pub mod contest;
pub mod criteria_group;
pub mod criterion;
pub mod match_result;
pub mod title;
pub mod top_row;

pub use contest::{Contest, Contestant};
pub use criteria_group::{
    CriteriaGroup, CriteriaGroupItem, DeleteCriteriaGroup, GroupAddToTiles, NewCriteriaGroup,
    UpdateCriteriaGroup,
};
pub use criterion::{Criterion, DeleteCriterion, NewCriterion, UpdateCriterion};
pub use match_result::MatchResult;
pub use title::{
    CategoryItem, DeleteTitle, DeleteTitleCriteria, NewCategoryItem, NewTitle, NewTitleCriteria,
    Title, UpdateTitle,
};
pub use top_row::TopRow;
