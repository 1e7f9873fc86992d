//! An ordered set of `i32` keys kept in a red-black tree.
//!
//! The tree owns its nodes through `Box` links. Insertion and deletion
//! rebalance with local rotations and recolorings, and every public operation
//! is proved to keep the search order and the red-black invariants.

pub mod delete;
pub mod insert;
pub mod laws;
pub mod node;
pub mod tree;

pub use node::{RbColor, RbNode};
pub use tree::RbTree;
