//! The trie in its two forms, and the searches that walk it.

pub mod node;
pub mod growth;
pub mod trie;
pub mod trie_builder;
pub mod concurrent_pq;
pub mod searchconfig;
pub mod cursor;
pub mod iterators;
pub mod search_model;
pub mod multithreaded_search;
pub mod multiset_sum;
pub mod driver;
pub mod search;
