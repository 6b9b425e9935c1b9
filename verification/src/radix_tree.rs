//! The radix tree and its supporting pieces: byte-sequence keys and the
//! key-matching state machine, key/value entries, tree nodes, and the
//! map-like handle that owns the root.

pub mod entry;
pub mod key;
pub mod node;
pub mod tree;

pub use tree::RadixTree;
