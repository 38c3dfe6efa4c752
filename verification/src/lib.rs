//! Ordered binary trees with verified construction, insertion, search and
//! in-order traversal, in two node shapes: a node with optional children
//! (`tree`) and a sum type whose leaves hold the values (`sum_tree`).

pub mod sum_tree;
pub mod tree;
