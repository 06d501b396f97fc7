//! Compiles regular expressions into finite automata.
//!
//! A regular expression ([`reg::re::Re`]) is turned into a nondeterministic
//! automaton by Thompson's construction, and that automaton into a
//! deterministic one by the subset construction.
pub mod reg;
