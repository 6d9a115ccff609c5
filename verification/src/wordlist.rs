//! The dictionary: a weighted trie and the queries over it.

pub mod index;
pub mod trie;
pub mod wordlist;
