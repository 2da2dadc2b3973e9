//! Character classes and scan predicates used by the lexer.
use vstd::prelude::*;

verus! {

/// Unicode white space, following the `White_Space` property that the
/// standard library's `char::is_whitespace` tests.
pub open spec fn is_ws_char(c: char) -> bool {
    let u = c as u32;
    u == 0x20 || (0x09 <= u && u <= 0x0d) || u == 0x85 || u == 0xa0 || u == 0x1680 || (0x2000
        <= u && u <= 0x200a) || u == 0x2028 || u == 0x2029 || u == 0x202f || u == 0x205f || u
        == 0x3000
}

pub fn is_ws(c: char) -> (r: bool)
    ensures
        r == is_ws_char(c),
{
    let u: u32 = c as u32;
    u == 0x20 || (0x09 <= u && u <= 0x0d) || u == 0x85 || u == 0xa0 || u == 0x1680 || (0x2000
        <= u && u <= 0x200a) || u == 0x2028 || u == 0x2029 || u == 0x202f || u == 0x205f || u
        == 0x3000
}

/// A decimal digit, `'0'` through `'9'`.
pub open spec fn is_digit_char(c: char) -> bool {
    0x30 <= (c as u32) && (c as u32) <= 0x39
}

pub fn is_digit(c: char) -> (r: bool)
    ensures
        r == is_digit_char(c),
{
    let u: u32 = c as u32;
    0x30 <= u && u <= 0x39
}

/// The predicates that the character scanner accepts.  The scanner's
/// behaviour depends on whether a predicate holds of the backtick, so the
/// predicate is a first-class value with a spec-level meaning.
#[derive(Clone, Copy)]
pub enum Pred {
    /// Holds of every character but the given one.
    NotChar(char),
    /// Holds of the given character only.
    IsChar(char),
    /// Holds of white space.
    Space,
    /// Holds of decimal digits.
    Digit,
}

pub open spec fn pred_holds(p: Pred, c: char) -> bool {
    match p {
        Pred::NotChar(x) => c != x,
        Pred::IsChar(x) => c == x,
        Pred::Space => is_ws_char(c),
        Pred::Digit => is_digit_char(c),
    }
}

pub fn pred_eval(p: Pred, c: char) -> (r: bool)
    ensures
        r == pred_holds(p, c),
{
    match p {
        Pred::NotChar(x) => c != x,
        Pred::IsChar(x) => c == x,
        Pred::Space => is_ws(c),
        Pred::Digit => is_digit(c),
    }
}

} // verus!
