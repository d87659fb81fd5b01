//! A merged suffix trie, built online: one node for every part of a text
//! that has to be told apart from the others, with the number of times
//! that the part occurs. The trie lives in an arena of nodes that refer to
//! their parents and children by number; a scan feeds it one character at
//! a time. What the scan guarantees of the finished trie is proved, not
//! only tested: see `trie::Trie::suffix` in the module `suffix`.
//!
//! The module `display` holds what a browser of the trie computes before
//! it draws anything.

pub mod counts;
pub mod display;
pub mod frontier;
pub mod graph;
pub mod invariants;
pub mod laws;
pub mod lazy;
pub mod order;
pub mod paths;
pub mod prefixes;
pub mod query;
pub mod suffix;
pub mod text;
pub mod tree;
pub mod trie;
pub mod walks;
