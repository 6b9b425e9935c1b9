//! A compressed prefix tree (radix tree) mapping byte-sequence keys to
//! values, with verified insertion, lookup and removal.

pub mod radix_tree;
