//! An ordered set of `i32` values kept in a binary search tree whose nodes own
//! their children, with insertion, lookup, deletion, minimum and maximum,
//! the three depth-first traversals, a node count, the height and a balance
//! check at the root.

pub mod error;
pub mod node;
pub mod sorted;
pub mod tree;
