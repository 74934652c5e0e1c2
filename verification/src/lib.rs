//! A collection of comparison-based algorithms that work in place on slices:
//! sorting, a sortedness check and an order-aware search.
//!
//! Every algorithm exists in two forms: one that uses the natural order of the
//! element type and one, with `_by` in its name, that takes the comparison as
//! a function. Both take the direction as a flag: `true` means ascending.

pub mod binarysearch;
pub mod error;
pub mod graph;
pub mod sort;
pub mod traits;
pub mod utils;

pub use crate::error::{AgcError, AgcErrorKind, AgcResult};
