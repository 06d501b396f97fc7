//! What an alphabet's symbols must offer: a test for equality and their text.
use vstd::prelude::*;
use crate::reg::text::{char_debug_text, debug_char, decimal, push_char, push_decimal};

verus! {

/// A symbol of an alphabet. Expressions and automata are built over any type
/// that can be copied, compared and written out.
pub trait Symbol: Copy {
    /// The symbol as it stands in a written expression.
    spec fn shown(self) -> Seq<char>;

    /// The symbol as it is written for inspection, on the edge of a drawn
    /// graph.
    spec fn debug_text(self) -> Seq<char>;

    /// Whether `self` and `other` are the same symbol.
    fn same(&self, other: &Self) -> (b: bool)
        ensures
            b == (*self == *other),
    ;

    /// The symbol as it stands in a written expression.
    fn show(&self) -> (s: String)
        ensures
            s@ == self.shown(),
    ;

    /// The symbol as it is written for inspection.
    fn debug(&self) -> (s: String)
        ensures
            s@ == self.debug_text(),
    ;
}

impl Symbol for char {
    open spec fn shown(self) -> Seq<char> {
        seq![self]
    }

    open spec fn debug_text(self) -> Seq<char> {
        char_debug_text(self)
    }

    fn same(&self, other: &Self) -> (b: bool) {
        *self == *other
    }

    fn show(&self) -> (s: String) {
        let mut s = String::new();
        push_char(&mut s, *self);
        assert(s@ =~= seq![*self]);
        s
    }

    fn debug(&self) -> (s: String) {
        debug_char(*self)
    }
}

impl Symbol for u8 {
    open spec fn shown(self) -> Seq<char> {
        decimal(self as nat)
    }

    open spec fn debug_text(self) -> Seq<char> {
        decimal(self as nat)
    }

    fn same(&self, other: &Self) -> (b: bool) {
        *self == *other
    }

    fn show(&self) -> (s: String) {
        let mut s = String::new();
        push_decimal(&mut s, *self as usize);
        assert(s@ =~= decimal(*self as nat));
        s
    }

    fn debug(&self) -> (s: String) {
        self.show()
    }
}

/// Whether two edge labels are the same: both none, or the same symbol.
pub fn same_label<T: Symbol>(a: &Option<T>, b: &Option<T>) -> (r: bool)
    ensures
        r == (*a == *b),
{
    match (a, b) {
        (None, None) => true,
        (Some(x), Some(y)) => x.same(y),
        _ => false,
    }
}

} // verus!
