//! Graphs.

pub mod maps;

pub use crate::graph::maps::{AdjacencyMatrix, Edge, EdgeKind};
