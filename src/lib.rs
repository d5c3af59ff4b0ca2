//! Parallel prefix scan over a slice of items, driven by fork-join
//! parallelism: an up-sweep learns the total of every subtree of a fixed
//! split tree, and a down-sweep hands each subtree the combination of
//! everything to its left, so that each leaf can run its own running fold.
pub mod model;
pub mod laws;
pub mod engine;
mod fork;

pub use engine::{scan, scan_with_leaf_size, LEAF_SIZE};
