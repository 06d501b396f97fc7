//! A table without the split between epsilon edges and symbol edges.
use vstd::prelude::*;

verus! {

/// An automaton as a table from each state to the states that each symbol
/// leads to, with no epsilon edges. Only the form is defined here; the
/// library offers no conversion into it.
pub struct CompactNfa<T> {
    states: Vec<Vec<(T, usize)>>,
    head: usize,
    tail: usize,
}

} // verus!
