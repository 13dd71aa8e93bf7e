//! How a shell reads the words of a literal, and the proof that it reads
//! back what was encoded.
//!
//! The model covers the quoting that literals use: characters that stand
//! for themselves, single quotes, the backslash outside quotes, and blanks
//! between words. Any other character outside quotes may mean something to
//! the shell; the model gives up on a text that holds one.

use crate::decimal::{decimal_text, lemma_decimal_is_bare};
use crate::encode::{
    entries_fault, entries_written, items_fault, items_written, literal, word, written,
};
use crate::expect::{
    all_scalar, all_values_scalar, canonical, canonical_entries, canonical_items, lines, meant,
};
use crate::numeral::lemma_numeral_is_bare;
use crate::quote::{is_bare, is_plain, quoted, quoted_body, quoted_char};
use crate::value::{keys_distinct, ValueView};
use vstd::prelude::*;

verus! {

/// Where the reader stands.
pub enum Mode {
    /// Outside quotes.
    Bare,
    /// Between single quotes.
    Quoted,
    /// Behind a backslash outside quotes.
    Escaped,
}

/// The reader's state: the words read, the word under way if one has begun,
/// where the reader stands, and whether it met a character that the model
/// does not cover.
#[verifier::ext_equal]
pub struct Reading {
    pub words: Seq<Seq<char>>,
    pub word: Option<Seq<char>>,
    pub mode: Mode,
    pub lost: bool,
}

/// The characters that part words.
pub open spec fn is_blank(c: char) -> bool {
    c == ' ' || c == '\t' || c == '\n'
}

impl Reading {
    /// The reader before the first character.
    pub open spec fn start() -> Reading {
        Reading { words: Seq::empty(), word: None, mode: Mode::Bare, lost: false }
    }

    /// The word under way; empty where none has begun.
    pub open spec fn pending(self) -> Seq<char> {
        match self.word {
            Some(w) => w,
            None => Seq::empty(),
        }
    }

    /// The reader with `text` added to the word under way.
    pub open spec fn grown(self, text: Seq<char>) -> Reading {
        Reading { word: Some(self.pending() + text), ..self }
    }

    /// The reader after one more character. Between quotes every character
    /// but the quote is taken as it is. Behind a backslash every character
    /// is taken as it is, but a line end, which is dropped with the
    /// backslash. Outside quotes a quote opens, a backslash escapes, a blank
    /// ends the word under way, and a plain character is taken as it is.
    pub open spec fn step(self, c: char) -> Reading {
        if self.lost {
            self
        } else {
            match self.mode {
                Mode::Quoted => if c == '\'' {
                    Reading { mode: Mode::Bare, ..self }
                } else {
                    self.grown(seq![c])
                },
                Mode::Escaped => if c == '\n' {
                    Reading { mode: Mode::Bare, ..self }
                } else {
                    Reading { mode: Mode::Bare, ..self.grown(seq![c]) }
                },
                Mode::Bare => if c == '\'' {
                    Reading { mode: Mode::Quoted, ..self.grown(Seq::empty()) }
                } else if c == '\\' {
                    Reading { mode: Mode::Escaped, ..self }
                } else if is_blank(c) {
                    match self.word {
                        Some(w) => Reading { words: self.words.push(w), word: None, ..self },
                        None => self,
                    }
                } else if is_plain(c) {
                    self.grown(seq![c])
                } else {
                    Reading { lost: true, ..self }
                },
            }
        }
    }

    /// The reader after the characters of `text`.
    pub open spec fn run(self, text: Seq<char>) -> Reading
        decreases text.len(),
    {
        if text.len() == 0 {
            self
        } else {
            self.run(text.drop_last()).step(text.last())
        }
    }

    /// The words read when the text ends here: none where the reader was
    /// lost, or stands between quotes or behind a backslash.
    pub open spec fn finish(self) -> Option<Seq<Seq<char>>> {
        if self.lost || !(self.mode is Bare) {
            None
        } else {
            Some(
                match self.word {
                    Some(w) => self.words.push(w),
                    None => self.words,
                },
            )
        }
    }

    /// Reading two texts in a row is reading them joined.
    pub proof fn lemma_run_joined(self, a: Seq<char>, b: Seq<char>)
        ensures
            self.run(a + b) == self.run(a).run(b),
        decreases b.len(),
    {
        if b.len() == 0 {
            assert(a + b =~= a);
        } else {
            assert((a + b).drop_last() =~= a + b.drop_last());
            self.lemma_run_joined(a, b.drop_last());
        }
    }

    /// Reading a text of one character is one step.
    pub proof fn lemma_run_one(self, c: char)
        ensures
            self.run(seq![c]) == self.step(c),
    {
        assert(seq![c].drop_last() =~= Seq::<char>::empty());
        assert(self.run(Seq::<char>::empty()) == self);
    }

    /// Plain characters outside quotes go to the word under way.
    pub proof fn lemma_run_bare(self, text: Seq<char>)
        requires
            self.mode is Bare,
            !self.lost,
            is_bare(text),
        ensures
            self.run(text) == self.grown(text),
        decreases text.len(),
    {
        let head = text.drop_last();
        if head.len() == 0 {
            assert(self.run(head) == self);
            assert(seq![text.last()] =~= text);
        } else {
            self.lemma_run_bare(head);
            assert(self.grown(head).grown(seq![text.last()]) =~= self.grown(text)) by {
                assert(head + seq![text.last()] =~= text);
                assert(self.pending() + head + seq![text.last()] =~= self.pending() + text);
            }
        }
    }

    /// Between quotes, the quoted form of a text adds that text to the word
    /// under way and leaves the reader between quotes.
    pub proof fn lemma_run_quoted_body(self, text: Seq<char>)
        requires
            self.mode is Quoted,
            !self.lost,
            self.word is Some,
        ensures
            self.run(quoted_body(text)) == self.grown(text),
        decreases text.len(),
    {
        if text.len() == 0 {
            assert(self.pending() + text =~= self.pending());
        } else {
            let head = text.drop_last();
            let c = text.last();
            self.lemma_run_quoted_body(head);
            self.lemma_run_joined(quoted_body(head), quoted_char(c));
            let r = self.grown(head);
            assert(head + seq![c] =~= text);
            assert(self.pending() + head + seq![c] =~= self.pending() + text);
            if c == '\'' || c == '!' {
                let q = quoted_char(c);
                assert(q.drop_last() =~= seq!['\'', '\\', c]);
                assert(q.drop_last().drop_last() =~= seq!['\'', '\\']);
                assert(q.drop_last().drop_last().drop_last() =~= seq!['\'']);
                r.lemma_run_one('\'');
                assert(r.run(seq!['\'', '\\']) == r.step('\'').step('\\'));
                assert(r.run(seq!['\'', '\\', c]) == r.step('\'').step('\\').step(c));
                assert(r.run(q) == r.step('\'').step('\\').step(c).step('\''));
                assert(r.run(q) =~= self.grown(text));
            } else {
                r.lemma_run_one(c);
                assert(r.step(c) =~= self.grown(text));
            }
        }
    }

    /// Outside quotes, the shell word of a text adds that text to the word
    /// under way, which has begun after it even where the text is empty.
    pub proof fn lemma_run_quoted(self, text: Seq<char>)
        requires
            self.mode is Bare,
            !self.lost,
        ensures
            self.run(quoted(text)) == self.grown(text),
    {
        if is_bare(text) {
            self.lemma_run_bare(text);
        } else {
            let open = seq!['\''];
            let body = quoted_body(text);
            self.lemma_run_joined(open + body, open);
            self.lemma_run_joined(open, body);
            self.lemma_run_one('\'');
            let inside = self.step('\'');
            assert(inside.pending() =~= self.pending());
            inside.lemma_run_quoted_body(text);
            inside.grown(text).lemma_run_one('\'');
            assert(inside.grown(text).step('\'') =~= self.grown(text));
        }
    }
}

/// The words of `text`, if the model covers it.
pub open spec fn read_words(text: Seq<char>) -> Option<Seq<Seq<char>>> {
    Reading::start().run(text).finish()
}

/// The words of a list literal: those between its `(` and its `)`.
pub open spec fn read_list(text: Seq<char>) -> Option<Seq<Seq<char>>> {
    if text.len() >= 2 && text[0] == '(' && text.last() == ')' {
        read_words(text.subrange(1, text.len() - 1))
    } else {
        None
    }
}

/// The associative array that a shell builds from the words key, value,
/// key, value and so on: each key leads to the value behind it, a later
/// value for a key replacing an earlier one.
pub open spec fn associated(words: Seq<Seq<char>>) -> Map<Seq<char>, Seq<char>>
    decreases words.len(),
{
    if words.len() < 2 {
        Map::empty()
    } else {
        associated(words.take(words.len() - 2)).insert(
            words[words.len() - 2],
            words[words.len() - 1],
        )
    }
}

/// The words that a shell reads from `text` where it stands for `v`: those
/// of a list where `v` is a composite, else those of the text as it is.
pub open spec fn read_as(v: ValueView, text: Seq<char>) -> Option<Seq<Seq<char>>> {
    if v.is_composite() {
        read_list(text)
    } else {
        read_words(text)
    }
}

/// After the word of a scalar the word under way is the scalar's plain
/// text, and the blank behind it ends the word.
proof fn lemma_run_word(r: Reading, v: ValueView)
    requires
        r.mode is Bare,
        !r.lost,
        r.word is None,
        v.is_scalar(),
        v.well_formed(),
    ensures
        r.run(word(v)) == r.grown(canonical(v)),
        r.run(word(v) + seq![' ']) == (Reading { words: r.words.push(canonical(v)), ..r }),
{
    match v {
        ValueView::Integer(i) => {
            lemma_decimal_is_bare(i);
            r.lemma_run_bare(decimal_text(i));
        },
        ValueView::Float(text) => {
            lemma_numeral_is_bare(text);
            r.lemma_run_bare(text);
        },
        ValueView::Text(text) => {
            r.lemma_run_quoted(text);
        },
        _ => {},
    }
    r.lemma_run_joined(word(v), seq![' ']);
    r.grown(canonical(v)).lemma_run_one(' ');
    assert(r.pending() + canonical(v) =~= canonical(v));
}

/// The words of a sequence of scalars are read back as their plain texts.
proof fn lemma_run_items(items: Seq<ValueView>)
    requires
        all_scalar(items),
        forall|i: int| 0 <= i < items.len() ==> (#[trigger] items[i]).well_formed(),
    ensures
        items_fault(items) is None,
        Reading::start().run(items_written(items)) == (Reading {
            words: canonical_items(items),
            ..Reading::start()
        }),
    decreases items.len(),
{
    let start = Reading::start();
    if items.len() == 0 {
        assert(canonical_items(items) =~= Seq::<Seq<char>>::empty());
    } else {
        let head = items.drop_last();
        let last = items.last();
        assert(forall|i: int| 0 <= i < head.len() ==> head[i] == items[i]);
        lemma_run_items(head);
        let r = start.run(items_written(head));
        assert(items_written(items) =~= items_written(head) + (word(last) + seq![' ']));
        start.lemma_run_joined(items_written(head), word(last) + seq![' ']);
        lemma_run_word(r, last);
        assert(canonical_items(items) =~= canonical_items(head).push(canonical(last)));
    }
}

/// The words of a mapping of scalars are read back as key, plain text of
/// the value, key, plain text of the value and so on.
proof fn lemma_run_entries(entries: Seq<(Seq<char>, ValueView)>)
    requires
        all_values_scalar(entries),
        forall|i: int| 0 <= i < entries.len() ==> (#[trigger] entries[i]).1.well_formed(),
    ensures
        entries_fault(entries) is None,
        Reading::start().run(entries_written(entries)) == (Reading {
            words: canonical_entries(entries),
            ..Reading::start()
        }),
    decreases entries.len(),
{
    let start = Reading::start();
    if entries.len() == 0 {
        assert(canonical_entries(entries) =~= Seq::<Seq<char>>::empty());
    } else {
        let head = entries.drop_last();
        let (key, value) = entries.last();
        assert(forall|i: int| 0 <= i < head.len() ==> head[i] == entries[i]);
        lemma_run_entries(head);
        let r = start.run(entries_written(head));
        let key_part = quoted(key) + seq![' '];
        let value_part = word(value) + seq![' '];
        assert(entries_written(entries) =~= entries_written(head) + key_part + value_part);
        start.lemma_run_joined(entries_written(head) + key_part, value_part);
        start.lemma_run_joined(entries_written(head), key_part);
        lemma_run_word(r, ValueView::Text(key));
        lemma_run_word(r.run(key_part), value);
        let before = canonical_entries(head);
        let after = canonical_entries(entries);
        assert(after =~= before.push(key).push(canonical(value))) by {
            assert(after.len() == before.len() + 2);
            assert forall|i: int| 0 <= i < after.len() implies after[i] == before.push(key).push(
                canonical(value),
            )[i] by {
                if i < before.len() {
                    assert(i / 2 < head.len());
                    assert(entries[i / 2] == head[i / 2]);
                } else if i == before.len() {
                    assert(i / 2 == entries.len() - 1 && i % 2 == 0);
                } else {
                    assert(i / 2 == entries.len() - 1 && i % 2 == 1);
                }
            }
        }
    }
}

/// The array built from the words of a mapping leads from each key to the
/// plain text of the value that was last put under it.
proof fn lemma_associated_entries(entries: Seq<(Seq<char>, ValueView)>)
    ensures
        forall|k: Seq<char>| #[trigger]
            associated(canonical_entries(entries)).dom().contains(k) <==> exists|i: int|
                0 <= i < entries.len() && (#[trigger] entries[i]).0 == k,
        keys_distinct(entries) ==> forall|i: int|
            0 <= i < entries.len() ==> associated(canonical_entries(entries))[(
            #[trigger] entries[i]).0] == canonical(entries[i].1),
    decreases entries.len(),
{
    let words = canonical_entries(entries);
    if entries.len() > 0 {
        let head = entries.drop_last();
        let (key, value) = entries.last();
        lemma_associated_entries(head);
        assert(words.take(words.len() - 2) =~= canonical_entries(head)) by {
            assert forall|i: int| 0 <= i < words.len() - 2 implies words[i] == canonical_entries(
                head,
            )[i] by {
                assert(i / 2 < head.len());
                assert(entries[i / 2] == head[i / 2]);
            }
        }
        assert(words[words.len() - 2] == key) by {
            assert((words.len() - 2) / 2 == entries.len() - 1 && (words.len() - 2) % 2 == 0);
        }
        assert(words[words.len() - 1] == canonical(value)) by {
            assert((words.len() - 1) / 2 == entries.len() - 1 && (words.len() - 1) % 2 == 1);
        }
        let inner = associated(canonical_entries(head));
        assert(associated(words) == inner.insert(key, canonical(value)));
        assert forall|k: Seq<char>| #[trigger]
            associated(words).dom().contains(k) <==> exists|i: int|
                0 <= i < entries.len() && (#[trigger] entries[i]).0 == k by {
            if associated(words).dom().contains(k) {
                if k == key {
                    assert(entries[entries.len() - 1].0 == k);
                } else {
                    assert(inner.dom().contains(k));
                    let i = choose|i: int| 0 <= i < head.len() && (#[trigger] head[i]).0 == k;
                    assert(entries[i].0 == k);
                }
            }
            if exists|i: int| 0 <= i < entries.len() && (#[trigger] entries[i]).0 == k {
                let i = choose|i: int| 0 <= i < entries.len() && (#[trigger] entries[i]).0 == k;
                if i < head.len() {
                    assert(head[i].0 == k);
                }
            }
        }
        if keys_distinct(entries) {
            assert(keys_distinct(head)) by {
                assert forall|i: int, j: int| 0 <= i < j < head.len() implies (#[trigger] head[i]).0
                    != (#[trigger] head[j]).0 by {
                    assert(entries[i].0 != entries[j].0);
                }
            }
            assert forall|i: int| 0 <= i < entries.len() implies associated(words)[(
            #[trigger] entries[i]).0] == canonical(entries[i].1) by {
                if i < head.len() {
                    assert(entries[i].0 != entries[entries.len() - 1].0);
                    assert(head[i] == entries[i]);
                }
            }
        }
    }
}

/// A scalar round trip: the shell reads the literal of a scalar as one
/// word, and the word is the scalar's plain text.
pub proof fn lemma_scalar_round_trip(v: ValueView)
    requires
        v.is_scalar(),
        v.well_formed(),
    ensures
        literal(v) == Ok::<Seq<char>, crate::error::EncodeError>(written(v)),
        read_words(written(v)) == Some(seq![canonical(v)]),
{
    let start = Reading::start();
    lemma_run_word(start, v);
    assert(start.pending() + canonical(v) =~= canonical(v));
    assert(start.words.push(canonical(v)) =~= seq![canonical(v)]);
}

/// A sequence round trip: the shell reads the literal of a sequence of
/// scalars as a list of as many words, each the plain text of its item, in
/// the order of the items. The literal of the empty sequence is read as
/// the empty list.
pub proof fn lemma_sequence_round_trip(items: Seq<ValueView>)
    requires
        all_scalar(items),
        ValueView::Sequence(items).well_formed(),
    ensures
        literal(ValueView::Sequence(items)) == Ok::<Seq<char>, crate::error::EncodeError>(
            written(ValueView::Sequence(items)),
        ),
        read_list(written(ValueView::Sequence(items))) == Some(canonical_items(items)),
{
    lemma_run_items(items);
    let text = written(ValueView::Sequence(items));
    assert(text =~= seq!['('] + items_written(items) + seq![')']);
    assert(text.subrange(1, text.len() - 1) =~= items_written(items));
}

/// A mapping round trip: the shell reads the literal of a mapping of
/// scalars as the list key, plain text of the value, key, plain text of the
/// value and so on; and the associative array built from that list has the
/// keys of the mapping and no others, each leading to the plain text of its
/// value.
pub proof fn lemma_mapping_round_trip(entries: Seq<(Seq<char>, ValueView)>)
    requires
        all_values_scalar(entries),
        ValueView::Mapping(entries).well_formed(),
    ensures
        literal(ValueView::Mapping(entries)) == Ok::<Seq<char>, crate::error::EncodeError>(
            written(ValueView::Mapping(entries)),
        ),
        read_list(written(ValueView::Mapping(entries))) == Some(canonical_entries(entries)),
        forall|k: Seq<char>| #[trigger]
            associated(canonical_entries(entries)).dom().contains(k) <==> exists|i: int|
                0 <= i < entries.len() && (#[trigger] entries[i]).0 == k,
        forall|i: int|
            0 <= i < entries.len() ==> associated(canonical_entries(entries))[(
            #[trigger] entries[i]).0] == canonical(entries[i].1),
{
    lemma_run_entries(entries);
    lemma_associated_entries(entries);
    let text = written(ValueView::Mapping(entries));
    assert(text =~= seq!['('] + entries_written(entries) + seq![')']);
    assert(text.subrange(1, text.len() - 1) =~= entries_written(entries));
}

/// Items without a fault are scalars.
proof fn lemma_sound_items_are_scalar(items: Seq<ValueView>)
    requires
        items_fault(items) is None,
    ensures
        all_scalar(items),
    decreases items.len(),
{
    if items.len() > 0 {
        lemma_sound_items_are_scalar(items.drop_last());
        assert forall|i: int| 0 <= i < items.len() implies (#[trigger] items[i]).is_scalar() by {
            if i < items.len() - 1 {
                assert(items.drop_last()[i].is_scalar());
            }
        }
    }
}

/// Entries without a fault have scalars for values.
proof fn lemma_sound_entries_are_scalar(entries: Seq<(Seq<char>, ValueView)>)
    requires
        entries_fault(entries) is None,
    ensures
        all_values_scalar(entries),
    decreases entries.len(),
{
    if entries.len() > 0 {
        lemma_sound_entries_are_scalar(entries.drop_last());
        assert forall|i: int| 0 <= i < entries.len() implies (#[trigger] entries[i]).1.is_scalar() by {
            if i < entries.len() - 1 {
                assert(entries.drop_last()[i].1.is_scalar());
            }
        }
    }
}

/// The round trip: where a value has a literal, the shell reads from the
/// literal the words that the value is meant to say, so that a script which
/// prints each word on a line of its own prints each of them on its line.
pub proof fn lemma_round_trip(v: ValueView)
    requires
        v.well_formed(),
        literal(v) is Ok,
    ensures
        read_as(v, written(v)) == Some(meant(v)),
        read_as(v, written(v)) matches Some(words) && lines(words) == lines(meant(v)),
{
    match v {
        ValueView::Sequence(items) => {
            lemma_sound_items_are_scalar(items);
            lemma_sequence_round_trip(items);
        },
        ValueView::Mapping(entries) => {
            lemma_sound_entries_are_scalar(entries);
            lemma_mapping_round_trip(entries);
        },
        _ => {
            lemma_scalar_round_trip(v);
        },
    }
}

} // verus!
