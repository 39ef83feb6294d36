//! Reconstruction of binary trees from level-order token streams.
//!
//! A tree is flattened breadth-first into a sequence of string tokens,
//! where any token that fails to parse as a key stands for an absent
//! child.  This crate rebuilds the tree from such a stream: nodes live
//! in an append-only arena addressed by index, a FIFO queue tracks the
//! nodes still awaiting children, and a three-state role cursor decides
//! which slot the next token fills.  The whole reconstruction is
//! verified against a mathematical model of the engine.

pub mod builder;
pub mod parser;
pub mod tree;

pub use builder::{add_value, build, BuildTreeInLevel, NodeType, TreeBuilder};
pub use parser::{DecimalParser, TokenParser};
pub use tree::{Tree, TreeNode};
