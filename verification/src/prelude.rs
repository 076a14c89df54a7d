//! The names that most callers need.

pub use crate::dto::{
    CategoryItem, Contest, Contestant, CriteriaGroup, CriteriaGroupItem, Criterion,
    DeleteCriteriaGroup, DeleteCriterion, DeleteTitle, DeleteTitleCriteria, GroupAddToTiles, MatchResult, NewCategoryItem,
    NewCriteriaGroup, NewCriterion, NewTitle, NewTitleCriteria, Title, TopRow,
    UpdateCriteriaGroup, UpdateCriterion, UpdateTitle,
};
pub use crate::elo::{calc_change, Score};
pub use crate::error::{DbError, Fault};
pub use crate::model::{CriterionRow, Rating, BASELINE};
pub use crate::store::record::Record;
pub use crate::store::Store;
