//! An in-memory B+tree index from `usize` keys to `usize` values, with node
//! splitting on overflow, separator propagation toward the root, and a leaf
//! chain. Nodes live in an arena and refer to one another by index.

pub mod node;
pub mod tree;

pub use node::Node;
pub use tree::BTree;
