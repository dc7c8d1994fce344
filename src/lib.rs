//! Finds the `k` values of a binary search tree that lie nearest to a target.

pub mod closest;
pub mod target;
pub mod tree;
pub mod laws;
