//! Helpers shared by the algorithms.

pub mod priority;
pub mod slice;
