//! An undirected graph over a fixed set of nodes `0..n`, with cycle detection
//! and a randomized spanning-forest builder.

pub mod graph;
pub mod laws;
pub mod model;
mod search;
pub mod spanning;

pub use graph::Graph;
pub use spanning::{make_spanning_tree, spanning_forest_in_order};
