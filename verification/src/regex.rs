//! The regular expressions of the searches: their syntax, and the automata
//! that run them.

pub mod nfa;
pub mod parse;
pub mod language;
