//! Building text: characters, decimal numbers and quoted strings.
use vstd::prelude::*;

verus! {

/// What `{:?}` prints for a character: the character between single quotes,
/// escaped where the standard library escapes it.
pub uninterp spec fn char_debug_text(c: char) -> Seq<char>;

/// What `{:?}` prints for a string: the string between double quotes, each
/// character escaped where the standard library escapes it.
pub uninterp spec fn str_debug_text(s: Seq<char>) -> Seq<char>;

/// Appends `c` to `s`, by `String::push`, which adds the one character at the
/// end and leaves the rest as it was.
#[verifier::external_body]
pub(crate) fn push_char(s: &mut String, c: char)
    ensures
        final(s)@ == old(s)@.push(c),
{
    s.push(c)
}

/// Formats `c` with `{:?}`, the standard library's `Debug` for `char`. The
/// result depends on `c` alone; it is named, not spelled out.
#[verifier::external_body]
pub(crate) fn debug_char(c: char) -> (s: String)
    ensures
        s@ == char_debug_text(c),
{
    format!("{:?}", c)
}

/// Formats `text` with `{:?}`, the standard library's `Debug` for `str`. The
/// result depends on the characters of `text` alone; it is named, not
/// spelled out.
#[verifier::external_body]
pub(crate) fn debug_str(text: &str) -> (s: String)
    ensures
        s@ == str_debug_text(text@),
{
    format!("{:?}", text)
}

/// The character for a decimal digit.
pub open spec fn digit(d: nat) -> char
    recommends
        d < 10,
{
    if d == 0 {
        '0'
    } else if d == 1 {
        '1'
    } else if d == 2 {
        '2'
    } else if d == 3 {
        '3'
    } else if d == 4 {
        '4'
    } else if d == 5 {
        '5'
    } else if d == 6 {
        '6'
    } else if d == 7 {
        '7'
    } else if d == 8 {
        '8'
    } else {
        '9'
    }
}

/// The decimal numeral of `n`, without leading zeros.
pub open spec fn decimal(n: nat) -> Seq<char>
    decreases n,
{
    if n < 10 {
        seq![digit(n)]
    } else {
        decimal(n / 10).push(digit(n % 10))
    }
}

/// The character for the decimal digit `d`.
pub fn digit_char(d: usize) -> (c: char)
    requires
        d < 10,
    ensures
        c == digit(d as nat),
{
    if d == 0 {
        '0'
    } else if d == 1 {
        '1'
    } else if d == 2 {
        '2'
    } else if d == 3 {
        '3'
    } else if d == 4 {
        '4'
    } else if d == 5 {
        '5'
    } else if d == 6 {
        '6'
    } else if d == 7 {
        '7'
    } else if d == 8 {
        '8'
    } else {
        '9'
    }
}

/// Appends the decimal numeral of `n` to `out`.
pub fn push_decimal(out: &mut String, n: usize)
    ensures
        final(out)@ == old(out)@ + decimal(n as nat),
    decreases n,
{
    if n >= 10 {
        push_decimal(out, n / 10);
    }
    push_char(out, digit_char(n % 10));
}

/// Appends `text` to `out`.
pub fn push_text(out: &mut String, text: &str)
    ensures
        final(out)@ == old(out)@ + text@,
{
    out.append(text);
}

} // verus!
