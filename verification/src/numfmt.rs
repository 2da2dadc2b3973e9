//! Decimal rendering of unsigned numbers, used for heading depths and for
//! positions in error messages.
use vstd::prelude::*;

verus! {

/// The character for one decimal digit value.
pub open spec fn digit_char(d: nat) -> char {
    if d == 0 {
        '0'
    } else if d == 1 {
        '1'
    } else if d == 2 {
        '2'
    } else if d == 3 {
        '3'
    } else if d == 4 {
        '4'
    } else if d == 5 {
        '5'
    } else if d == 6 {
        '6'
    } else if d == 7 {
        '7'
    } else if d == 8 {
        '8'
    } else {
        '9'
    }
}

/// The usual decimal numeral of `n`, most significant digit first.
pub open spec fn dec_spec(n: nat) -> Seq<char>
    decreases n,
{
    if n < 10 {
        seq![digit_char(n)]
    } else {
        dec_spec(n / 10).push(digit_char(n % 10))
    }
}

fn digit_of(d: u64) -> (c: char)
    requires
        d < 10,
    ensures
        c == digit_char(d as nat),
{
    if d == 0 {
        '0'
    } else if d == 1 {
        '1'
    } else if d == 2 {
        '2'
    } else if d == 3 {
        '3'
    } else if d == 4 {
        '4'
    } else if d == 5 {
        '5'
    } else if d == 6 {
        '6'
    } else if d == 7 {
        '7'
    } else if d == 8 {
        '8'
    } else {
        '9'
    }
}

fn push_dec_rec(n: u64, v: &mut Vec<char>)
    ensures
        final(v)@ == old(v)@ + dec_spec(n as nat),
    decreases n,
{
    if n < 10 {
        v.push(digit_of(n));
    } else {
        push_dec_rec(n / 10, v);
        v.push(digit_of(n % 10));
    }
}

/// Appends the decimal numeral of `n` to `v`.
pub fn push_dec(n: usize, v: &mut Vec<char>)
    ensures
        final(v)@ == old(v)@ + dec_spec(n as nat),
{
    push_dec_rec(n as u64, v);
}

} // verus!
