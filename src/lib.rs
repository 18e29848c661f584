//! A lookup table keyed by character sequences, stored as a trie.

pub mod laws;
pub mod trie;

pub use trie::{Trie, TrieNode};
