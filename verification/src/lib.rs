//! A word-puzzle search engine: a weighted dictionary trie queried by
//! regular expression or by anagram, best results first.

pub mod alphabet;
pub mod ciphers;
pub mod regex;
pub mod text;
pub mod wordlist;
