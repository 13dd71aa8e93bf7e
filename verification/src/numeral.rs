//! The written form of a floating-point number.

use crate::quote::{is_bare, is_plain};
use crate::text::chars_of;
use vstd::prelude::*;
use vstd::string::StringExecFns;

verus! {

/// True for the ten decimal digits.
pub open spec fn is_digit(c: char) -> bool {
    '0' <= c && c <= '9'
}

/// The number of digits that `s` begins with.
pub open spec fn digit_run(s: Seq<char>) -> nat
    decreases s.len(),
{
    if s.len() > 0 && is_digit(s[0]) {
        1 + digit_run(s.skip(1))
    } else {
        0
    }
}

/// One or more digits and nothing else.
pub open spec fn is_digits(s: Seq<char>) -> bool {
    s.len() > 0 && digit_run(s) == s.len()
}

/// An exponent: digits, after `-` or `+` or neither.
pub open spec fn is_exponent(s: Seq<char>) -> bool {
    if s.len() > 0 && (s[0] == '-' || s[0] == '+') {
        is_digits(s.skip(1))
    } else {
        is_digits(s)
    }
}

/// What may follow the digits of a number: nothing, or `e` or `E` and an
/// exponent.
pub open spec fn is_exponent_part(s: Seq<char>) -> bool {
    s.len() == 0 || ((s[0] == 'e' || s[0] == 'E') && is_exponent(s.skip(1)))
}

/// What may follow the whole part of a number: a point and digits, then an
/// exponent part; or the exponent part at once.
pub open spec fn is_fraction_part(s: Seq<char>) -> bool {
    if s.len() > 0 && s[0] == '.' {
        digit_run(s.skip(1)) > 0 && is_exponent_part(s.skip(1 + digit_run(s.skip(1)) as int))
    } else {
        is_exponent_part(s)
    }
}

/// A number without its sign: `inf`, or digits with an optional fraction and
/// an optional exponent, as in `15`, `0.25`, `1.3e100`, `2E-7`.
pub open spec fn is_magnitude(s: Seq<char>) -> bool {
    s == seq!['i', 'n', 'f'] || (digit_run(s) > 0 && is_fraction_part(s.skip(digit_run(s) as int)))
}

/// The written forms of a floating-point number: `NaN`, or a magnitude after
/// an optional minus sign.
pub open spec fn is_numeral(s: Seq<char>) -> bool {
    s == seq!['N', 'a', 'N'] || if s.len() > 0 && s[0] == '-' {
        is_magnitude(s.skip(1))
    } else {
        is_magnitude(s)
    }
}

/// Every character of `s` is plain.
spec fn all_plain(s: Seq<char>) -> bool {
    forall|i: int| 0 <= i < s.len() ==> is_plain(#[trigger] s[i])
}

/// A text is plain throughout if its first `k` characters are and the rest
/// is.
proof fn lemma_plain_from(s: Seq<char>, k: int)
    requires
        0 <= k <= s.len(),
        forall|i: int| 0 <= i < k ==> is_plain(#[trigger] s[i]),
        all_plain(s.skip(k)),
    ensures
        all_plain(s),
{
    assert forall|i: int| 0 <= i < s.len() implies is_plain(#[trigger] s[i]) by {
        if i >= k {
            assert(s.skip(k)[i - k] == s[i]);
        }
    }
}

/// The digits that a text begins with are digits, and no more of them than
/// the text has characters.
proof fn lemma_digit_run(s: Seq<char>)
    ensures
        digit_run(s) <= s.len(),
        forall|i: int| 0 <= i < digit_run(s) ==> is_digit(#[trigger] s[i]),
    decreases s.len(),
{
    if s.len() > 0 && is_digit(s[0]) {
        lemma_digit_run(s.skip(1));
        assert forall|i: int| 0 <= i < digit_run(s) implies is_digit(#[trigger] s[i]) by {
            if i > 0 {
                assert(s.skip(1)[i - 1] == s[i]);
            }
        }
    }
}

proof fn lemma_exponent_part_is_plain(s: Seq<char>)
    requires
        is_exponent_part(s),
    ensures
        all_plain(s),
{
    if s.len() > 0 {
        let e = s.skip(1);
        if e.len() > 0 && (e[0] == '-' || e[0] == '+') {
            lemma_digit_run(e.skip(1));
            lemma_plain_from(e, 1);
        } else {
            lemma_digit_run(e);
        }
        lemma_plain_from(s, 1);
    }
}

proof fn lemma_fraction_part_is_plain(s: Seq<char>)
    requires
        is_fraction_part(s),
    ensures
        all_plain(s),
{
    if s.len() > 0 && s[0] == '.' {
        let f = s.skip(1);
        let n = digit_run(f) as int;
        lemma_digit_run(f);
        lemma_exponent_part_is_plain(s.skip(1 + n));
        assert(f.skip(n) =~= s.skip(1 + n));
        lemma_plain_from(f, n);
        lemma_plain_from(s, 1);
    } else {
        lemma_exponent_part_is_plain(s);
    }
}

proof fn lemma_magnitude_is_bare(s: Seq<char>)
    requires
        is_magnitude(s),
    ensures
        is_bare(s),
{
    if s == seq!['i', 'n', 'f'] {
    } else {
        let n = digit_run(s) as int;
        lemma_digit_run(s);
        lemma_fraction_part_is_plain(s.skip(n));
        lemma_plain_from(s, n);
    }
}

/// The written form of a number needs no quotes: it is not empty and holds
/// plain characters only.
pub proof fn lemma_numeral_is_bare(s: Seq<char>)
    requires
        is_numeral(s),
    ensures
        is_bare(s),
{
    if s == seq!['N', 'a', 'N'] {
    } else if s.len() > 0 && s[0] == '-' {
        lemma_magnitude_is_bare(s.skip(1));
        lemma_plain_from(s, 1);
    } else {
        lemma_magnitude_is_bare(s);
    }
}

/// A floating-point number in its written form. The library does not compute
/// with the number: it holds the text that the number is written as.
#[derive(Debug, PartialEq)]
pub struct Numeral {
    text: String,
}

impl View for Numeral {
    type V = Seq<char>;

    closed spec fn view(&self) -> Seq<char> {
        self.text@
    }
}

proof fn lemma_skip_skip(s: Seq<char>, a: int, b: int)
    requires
        0 <= a,
        0 <= b,
        a + b <= s.len(),
    ensures
        s.skip(a).skip(b) == s.skip(a + b),
{
}

/// The end of the digits that begin at `from`.
fn skip_digits(chars: &Vec<char>, from: usize) -> (to: usize)
    requires
        from <= chars.len(),
    ensures
        from <= to <= chars.len(),
        to - from == digit_run(chars@.skip(from as int)),
{
    let mut to: usize = from;
    while to < chars.len() && '0' <= chars[to] && chars[to] <= '9'
        invariant
            from <= to <= chars.len(),
            digit_run(chars@.skip(from as int)) == (to - from) + digit_run(chars@.skip(to as int)),
        decreases chars.len() - to,
    {
        proof {
            lemma_skip_skip(chars@, to as int, 1);
        }
        to = to + 1;
    }
    to
}

/// Whether the characters from `from` on are an exponent part.
fn exponent_part_at(chars: &Vec<char>, from: usize) -> (yes: bool)
    requires
        from <= chars.len(),
    ensures
        yes == is_exponent_part(chars@.skip(from as int)),
{
    if from == chars.len() {
        return true;
    }
    if chars[from] != 'e' && chars[from] != 'E' {
        return false;
    }
    let mut digits_from: usize = from + 1;
    proof {
        lemma_skip_skip(chars@, from as int, 1);
    }
    if digits_from < chars.len() && (chars[digits_from] == '-' || chars[digits_from] == '+') {
        proof {
            lemma_skip_skip(chars@, digits_from as int, 1);
        }
        digits_from = digits_from + 1;
    }
    let to: usize = skip_digits(chars, digits_from);
    to > digits_from && to == chars.len()
}

/// Whether the characters from `from` on are a magnitude.
fn magnitude_at(chars: &Vec<char>, from: usize) -> (yes: bool)
    requires
        from <= chars.len(),
    ensures
        yes == is_magnitude(chars@.skip(from as int)),
{
    let rest = chars.len() - from;
    if rest == 3 && chars[from] == 'i' && chars[from + 1] == 'n' && chars[from + 2] == 'f' {
        assert(chars@.skip(from as int) =~= seq!['i', 'n', 'f']);
        return true;
    }
    let whole_end: usize = skip_digits(chars, from);
    if whole_end == from {
        return false;
    }
    proof {
        lemma_skip_skip(chars@, from as int, whole_end - from);
    }
    if whole_end < chars.len() && chars[whole_end] == '.' {
        let fraction_end: usize = skip_digits(chars, whole_end + 1);
        proof {
            lemma_skip_skip(chars@, whole_end as int, 1);
            lemma_skip_skip(chars@, whole_end as int, 1 + (fraction_end - whole_end - 1));
        }
        if fraction_end == whole_end + 1 {
            return false;
        }
        exponent_part_at(chars, fraction_end)
    } else {
        exponent_part_at(chars, whole_end)
    }
}

impl Numeral {
    #[verifier::type_invariant]
    spec fn well_written(self) -> bool {
        is_numeral(self.text@)
    }

    /// Takes `text` for a number if it is written as one.
    pub fn parse(text: &str) -> (numeral: Option<Numeral>)
        ensures
            numeral is Some <==> is_numeral(text@),
            numeral matches Some(n) ==> n@ == text@,
    {
        let chars = chars_of(text);
        let n = chars.len();
        if n == 3 && chars[0] == 'N' && chars[1] == 'a' && chars[2] == 'N' {
            assert(chars@ =~= seq!['N', 'a', 'N']);
            return Some(Numeral { text: String::from_str(text) });
        }
        let from: usize = if n > 0 && chars[0] == '-' {
            1
        } else {
            0
        };
        assert(chars@.skip(0) =~= chars@);
        assert(seq!['N', 'a', 'N'].len() == 3 && seq!['N', 'a', 'N'][0] == 'N' && seq![
            'N',
            'a',
            'N',
        ][1] == 'a' && seq!['N', 'a', 'N'][2] == 'N');
        if magnitude_at(&chars, from) {
            Some(Numeral { text: String::from_str(text) })
        } else {
            None
        }
    }

    /// The number as it is written.
    pub fn as_str(&self) -> (text: &str)
        ensures
            text@ == self@,
            is_numeral(self@),
    {
        proof {
            use_type_invariant(self);
        }
        self.text.as_str()
    }
}

impl Clone for Numeral {
    fn clone(&self) -> (copy: Numeral)
        ensures
            copy@ == self@,
    {
        proof {
            use_type_invariant(self);
        }
        Numeral { text: self.text.clone() }
    }
}

} // verus!
