//! An intrusive red-black tree.
//!
//! The nodes of a tree live in a slice that the caller owns; a node is named
//! by its index in that slice, its handle. The tree itself holds the handle
//! of its root. `RbTree::insert` links a node of the slice into the tree and
//! `RbTree::delete` unlinks one; both only rewire links and colours, and
//! neither moves a payload.
//!
//! For the contracts a tree is its in-order sequence of handles (its view),
//! together with what it means for the links of a slice to form that tree
//! (`RbTree::wf`), for the colours to keep the red-black rules
//! (`RbTree::is_red_black`) and for the payloads to be in order
//! (`RbTree::is_ordered`).

mod color;
mod delete;
mod delete_proofs;
mod insert;
mod insert_proofs;
pub mod laws;
pub mod node;
pub mod order;
mod remove;
mod shape;
pub mod tree;
pub mod utils;
mod validate;
mod walk;

pub use crate::node::{Links, NodeColor, NodeDirection, Outcome, RbNode, RbTrait};
pub use crate::tree::RbTree;
