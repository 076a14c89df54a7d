//! Pairwise rating of titles: matchmaking, rating updates and rankings.
//!
//! Titles are rated under criteria groups. The [`store::Store`] holds the titles, the groups
//! and their criteria, one rating for each title under each of its groups, and the history
//! of judgments. It draws the next pair of titles to compare, records a judgment together
//! with both rating changes, and reads rankings page by page. What each answer means is
//! stated over the [`model::Ledger`], the store's contents as sequences.

pub mod dto;
pub mod elo;
pub mod error;
pub mod laws;
pub mod lists;
pub mod model;
pub mod prelude;
pub mod seed;
pub mod seqs;
pub mod store;

pub use error::{DbError, Fault};
pub use store::record::Record;
pub use store::Store;
