//! A mutable, multi-child decision tree held in an arena.
//!
//! Nodes live in one vector owned by [`DT`]; a node is addressed by its
//! index, so two handles are equal exactly when they name the same node.
//! Every node carries a unique string id; every node but the root also
//! carries a payload and a decision value. [`Traverse`] walks the tree one edge at a time by
//! comparing an input value with the decisions of the children.
pub mod tree;
pub mod traverse;

pub use tree::DT;
pub use traverse::{Op, Traverse};
