//! Regular expressions and the automata built from them.
pub mod dfa;
pub mod dot;
pub mod graph;
pub mod language;
pub mod nfa;
pub mod re;
pub mod state_set;
pub mod symbol;
pub mod text;
