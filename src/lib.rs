//! An unbalanced binary search tree with verified insert, search, remove,
//! deep clone and in-order iteration.

pub mod laws;
pub mod order;
pub mod tree;
