//! Quoting a text so that the shell reads it back as one word.

use vstd::prelude::*;

verus! {

/// The characters that the shell takes literally wherever they stand:
/// ASCII letters and digits and `-`, `_`, `=`, `/`, `,`, `.`, `+`.
pub open spec fn is_plain(c: char) -> bool {
    ||| ('a' <= c && c <= 'z')
    ||| ('A' <= c && c <= 'Z')
    ||| ('0' <= c && c <= '9')
    ||| c == '-'
    ||| c == '_'
    ||| c == '='
    ||| c == '/'
    ||| c == ','
    ||| c == '.'
    ||| c == '+'
}

/// A text that can stand for itself: not empty, plain characters only.
pub open spec fn is_bare(s: Seq<char>) -> bool {
    s.len() > 0 && forall|i: int| 0 <= i < s.len() ==> is_plain(#[trigger] s[i])
}

/// One character as it stands between single quotes. A single quote cannot
/// stand there, so the quotes close, the character follows a backslash, and
/// the quotes open again; `!` is treated the same way.
pub open spec fn quoted_char(c: char) -> Seq<char> {
    if c == '\'' || c == '!' {
        seq!['\'', '\\', c, '\'']
    } else {
        seq![c]
    }
}

/// The characters of `s`, each as it stands between single quotes.
pub open spec fn quoted_body(s: Seq<char>) -> Seq<char>
    decreases s.len(),
{
    if s.len() == 0 {
        Seq::empty()
    } else {
        quoted_body(s.drop_last()) + quoted_char(s.last())
    }
}

/// The shell word for the text `s`: `s` itself where it is bare, else `s`
/// between single quotes.
pub open spec fn quoted(s: Seq<char>) -> Seq<char> {
    if is_bare(s) {
        s
    } else {
        seq!['\''] + quoted_body(s) + seq!['\'']
    }
}

/// Calls `shell_escape::unix::escape`. That function hands a text back
/// unchanged if it is not empty and holds only the characters of
/// [`is_plain`]; any other text it puts between single quotes, writing `'\''`
/// for each single quote in it and `'\!'` for each `!`.
#[verifier::external_body]
pub(crate) fn shell_word(s: &str) -> (word: String)
    ensures
        word@ == quoted(s@),
{
    shell_escape::unix::escape(std::borrow::Cow::Borrowed(s)).into_owned()
}

} // verus!
