//! Whole numbers in decimal notation.

use crate::quote::is_bare;
use vstd::prelude::*;

verus! {

/// The character for a digit from 0 to 9.
pub open spec fn digit_char(d: int) -> char {
    if d == 0 {
        '0'
    } else if d == 1 {
        '1'
    } else if d == 2 {
        '2'
    } else if d == 3 {
        '3'
    } else if d == 4 {
        '4'
    } else if d == 5 {
        '5'
    } else if d == 6 {
        '6'
    } else if d == 7 {
        '7'
    } else if d == 8 {
        '8'
    } else {
        '9'
    }
}

/// The digits of `n`, most significant first, without leading zeros; `0` for
/// zero.
pub open spec fn digits(n: nat) -> Seq<char>
    decreases n,
{
    if n < 10 {
        seq![digit_char(n as int)]
    } else {
        digits(n / 10).push(digit_char((n % 10) as int))
    }
}

/// The decimal notation of `i`: its digits, after a minus sign where it is
/// negative.
pub open spec fn decimal_text(i: int) -> Seq<char> {
    if i < 0 {
        seq!['-'] + digits((-i) as nat)
    } else {
        digits(i as nat)
    }
}

/// Digits are plain characters, and every number has one.
pub proof fn lemma_digits_are_bare(n: nat)
    ensures
        is_bare(digits(n)),
    decreases n,
{
    if n >= 10 {
        lemma_digits_are_bare(n / 10);
    }
}

/// Decimal notation needs no quotes.
pub proof fn lemma_decimal_is_bare(i: int)
    ensures
        is_bare(decimal_text(i)),
{
    if i < 0 {
        lemma_digits_are_bare((-i) as nat);
    } else {
        lemma_digits_are_bare(i as nat);
    }
}

fn digit(d: u64) -> (c: char)
    requires
        d < 10,
    ensures
        c == digit_char(d as int),
{
    if d == 0 {
        '0'
    } else if d == 1 {
        '1'
    } else if d == 2 {
        '2'
    } else if d == 3 {
        '3'
    } else if d == 4 {
        '4'
    } else if d == 5 {
        '5'
    } else if d == 6 {
        '6'
    } else if d == 7 {
        '7'
    } else if d == 8 {
        '8'
    } else {
        '9'
    }
}

fn push_digits(text: &mut String, n: u64)
    ensures
        final(text)@ == old(text)@ + digits(n as nat),
    decreases n,
{
    if n >= 10 {
        push_digits(text, n / 10);
    }
    text.push(digit(n % 10));
}

/// The decimal notation of `i`.
pub fn decimal(i: i64) -> (text: String)
    ensures
        text@ == decimal_text(i as int),
{
    let mut text = String::new();
    if i < 0 {
        text.push('-');
        // -(i + 1) fits where -i may not
        let below: u64 = (-(i + 1)) as u64;
        push_digits(&mut text, below + 1);
    } else {
        push_digits(&mut text, i as u64);
    }
    text
}

} // verus!
