//! An evolutionary trainer: a population of candidate solutions is scored
//! against a fixed dataset, ranked by an age-discounted priority, and renewed
//! generation by generation through mutation of the highest-priority members.
//!
//! Scores are fixed-point integers (the scoring collaborator chooses the
//! scale); ages are counted in eighths, so a fresh candidate's age of one is
//! stored as eight.

pub mod neurons;
pub mod parallel;
pub mod random;
pub mod trainer;

pub use neurons::NetworkDescription;
