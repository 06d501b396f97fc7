//! Nondeterministic automata: the graph under construction and the finished
//! table.
pub mod builder;
pub mod compact;
pub mod nfa;
