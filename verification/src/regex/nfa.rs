//! Nondeterministic automata whose states carry the characters.

pub mod state;
pub mod graph;
pub mod compile;
pub mod run;
pub mod language;
pub mod fragment;
pub mod flow;
