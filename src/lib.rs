//! Shortest contiguous span of a sequence that holds every element of a goal set.

mod recency;
pub mod shortest;

pub use crate::shortest::span;
