//! An ordered container of `i32` keys backed by a red-black tree.
//!
//! The tree is an owned recursive structure: every node owns its two
//! children, and the rebalancing passes climb back toward the root along
//! the return path of the recursion, so no parent back-links are needed.
//! All operations are verified: the binary-search ordering, the red-black
//! colouring invariants, and the set-of-keys semantics of every public
//! operation are stated as contracts and proved.

pub mod delete;
pub mod insert;
pub mod laws;
pub mod model;
pub mod red_black_tree;
