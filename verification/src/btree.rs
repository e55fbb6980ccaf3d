//! A B+tree over slotted pages, mapping byte-string keys to record ids.
pub mod key;
pub mod node;
pub mod tree;
pub mod insert;
pub mod delete;

pub use tree::BTree;
