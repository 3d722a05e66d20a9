//! An in-memory B-tree keyed by `u64`, storing a copyable payload per entry.
//! It supports insertion, lookup by exact key and a node-order traversal; every
//! operation is verified against the tree's invariant and its multiset of entries.

pub mod entry;
pub mod laws;
pub mod node;
pub mod tree;

pub use entry::Entry;
pub use node::Node;
pub use tree::BTree;
