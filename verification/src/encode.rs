//! Writing a value as a shell literal.

use crate::decimal::{decimal, decimal_text};
use crate::error::{EncodeError, Rejected};
use crate::expect::meant;
use crate::quote::{quoted, shell_word};
use crate::reading::{lemma_round_trip, read_as};
use crate::sink::{Sink, SinkView};
use crate::value::{items_view, keys_distinct, Mapping, Value, ValueView};
use vstd::prelude::*;

verus! {

/// The word for a scalar: an integer in decimal notation, a float as it is
/// written, a text quoted. Other values have no word.
pub open spec fn word(v: ValueView) -> Seq<char> {
    match v {
        ValueView::Integer(i) => decimal_text(i),
        ValueView::Float(text) => text,
        ValueView::Text(text) => quoted(text),
        _ => Seq::empty(),
    }
}

/// Why a value has no word, if it has none.
pub open spec fn word_fault(v: ValueView) -> Option<EncodeError> {
    match v {
        ValueView::Absent => Some(EncodeError::UnsupportedValue(Rejected::Absent)),
        ValueView::Boolean(flag) => Some(EncodeError::UnsupportedValue(Rejected::Boolean(flag))),
        ValueView::Sequence(_) => Some(EncodeError::NestedCompositeNotSupported),
        ValueView::Mapping(_) => Some(EncodeError::NestedCompositeNotSupported),
        _ => None,
    }
}

/// The fault of the first item that has no word, if there is such an item.
pub open spec fn items_fault(items: Seq<ValueView>) -> Option<EncodeError>
    decreases items.len(),
{
    if items.len() == 0 {
        None
    } else if items_fault(items.drop_last()) is Some {
        items_fault(items.drop_last())
    } else {
        word_fault(items.last())
    }
}

/// What is written for the items of a sequence: the word of each item and a
/// space after it, up to the first item that has no word.
pub open spec fn items_written(items: Seq<ValueView>) -> Seq<char>
    decreases items.len(),
{
    if items.len() == 0 {
        Seq::empty()
    } else if items_fault(items) is Some {
        items_written(items.drop_last())
    } else {
        items_written(items.drop_last()) + word(items.last()) + seq![' ']
    }
}

/// The fault of the first entry whose value has no word, if there is such an
/// entry.
pub open spec fn entries_fault(entries: Seq<(Seq<char>, ValueView)>) -> Option<EncodeError>
    decreases entries.len(),
{
    if entries.len() == 0 {
        None
    } else if entries_fault(entries.drop_last()) is Some {
        entries_fault(entries.drop_last())
    } else {
        word_fault(entries.last().1)
    }
}

/// What is written for the entries of a mapping: for each entry the quoted
/// key, a space, the word of the value and a space, up to the first entry
/// whose value has no word. Of that entry the key and its space are written
/// unless the value is a composite.
pub open spec fn entries_written(entries: Seq<(Seq<char>, ValueView)>) -> Seq<char>
    decreases entries.len(),
{
    if entries.len() == 0 {
        Seq::empty()
    } else if entries_fault(entries.drop_last()) is Some || entries.last().1.is_composite() {
        entries_written(entries.drop_last())
    } else if entries_fault(entries) is Some {
        entries_written(entries.drop_last()) + quoted(entries.last().0) + seq![' ']
    } else {
        entries_written(entries.drop_last()) + quoted(entries.last().0) + seq![' '] + word(
            entries.last().1,
        ) + seq![' ']
    }
}

/// Why `v` has no literal, if it has none: it is absent or a boolean, or it
/// is a composite and one of its members has no word. The first such member
/// decides.
pub open spec fn fault(v: ValueView) -> Option<EncodeError> {
    match v {
        ValueView::Sequence(items) => items_fault(items),
        ValueView::Mapping(entries) => entries_fault(entries),
        _ => word_fault(v),
    }
}

/// The text that encoding `v` writes to a sink without a limit. Where `v`
/// has a literal this is the literal: the word of a scalar, and for a
/// composite the words of its members between `(` and `)`, a space after
/// each. Where it has none, this is what is written before the fault.
pub open spec fn written(v: ValueView) -> Seq<char> {
    match v {
        ValueView::Sequence(items) => seq!['('] + items_written(items) + if items_fault(items) is None {
            seq![')']
        } else {
            Seq::empty()
        },
        ValueView::Mapping(entries) => seq!['('] + entries_written(entries) + if entries_fault(
            entries,
        ) is None {
            seq![')']
        } else {
            Seq::empty()
        },
        _ => word(v),
    }
}

/// The literal of `v`, or why it has none.
pub open spec fn literal(v: ValueView) -> Result<Seq<char>, EncodeError> {
    match fault(v) {
        Some(e) => Err(e),
        None => Ok(written(v)),
    }
}

/// What encoding `v` into `sink` returns: a failure of the sink where the
/// text written does not fit, else the fault of `v` if it has one.
pub open spec fn outcome(sink: SinkView, v: ValueView) -> Result<(), EncodeError> {
    if !sink.fits(written(v)) {
        Err(EncodeError::EncodingFailure)
    } else {
        match fault(v) {
            Some(e) => Err(e),
            None => Ok(()),
        }
    }
}

/// The first fault decides: once the first `k` items have a fault, the items
/// after them add nothing.
proof fn lemma_items_fault_stays(items: Seq<ValueView>, k: int)
    requires
        0 <= k <= items.len(),
        items_fault(items.take(k)) is Some,
    ensures
        items_fault(items) == items_fault(items.take(k)),
        items_written(items) == items_written(items.take(k)),
    decreases items.len() - k,
{
    if k == items.len() {
        assert(items.take(k) =~= items);
    } else {
        assert(items.take(k + 1).drop_last() =~= items.take(k));
        lemma_items_fault_stays(items, k + 1);
    }
}

/// What is written for the first `k` items begins what is written for all.
proof fn lemma_items_written_grows(items: Seq<ValueView>, k: int)
    requires
        0 <= k <= items.len(),
    ensures
        items_written(items.take(k)).is_prefix_of(items_written(items)),
    decreases items.len() - k,
{
    if k == items.len() {
        assert(items.take(k) =~= items);
    } else {
        assert(items.take(k + 1).drop_last() =~= items.take(k));
        lemma_items_written_grows(items, k + 1);
    }
}

proof fn lemma_entries_fault_stays(entries: Seq<(Seq<char>, ValueView)>, k: int)
    requires
        0 <= k <= entries.len(),
        entries_fault(entries.take(k)) is Some,
    ensures
        entries_fault(entries) == entries_fault(entries.take(k)),
        entries_written(entries) == entries_written(entries.take(k)),
    decreases entries.len() - k,
{
    if k == entries.len() {
        assert(entries.take(k) =~= entries);
    } else {
        assert(entries.take(k + 1).drop_last() =~= entries.take(k));
        lemma_entries_fault_stays(entries, k + 1);
    }
}

proof fn lemma_entries_written_grows(entries: Seq<(Seq<char>, ValueView)>, k: int)
    requires
        0 <= k <= entries.len(),
    ensures
        entries_written(entries.take(k)).is_prefix_of(entries_written(entries)),
    decreases entries.len() - k,
{
    if k == entries.len() {
        assert(entries.take(k) =~= entries);
    } else {
        assert(entries.take(k + 1).drop_last() =~= entries.take(k));
        lemma_entries_written_grows(entries, k + 1);
    }
}

/// What begins a text still begins it after both got the same opening and
/// the text got a tail.
proof fn lemma_begins(open: Seq<char>, part: Seq<char>, whole: Seq<char>, tail: Seq<char>)
    requires
        part.is_prefix_of(whole),
    ensures
        (open + part).is_prefix_of(open + whole + tail),
{
    let all = open + whole + tail;
    assert forall|i: int| 0 <= i < (open + part).len() implies (open + part)[i] == all[i] by {
        if i >= open.len() {
            assert(part[i - open.len()] == whole.subrange(0, part.len() as int)[i - open.len()]);
        }
    }
    assert((open + part) =~= all.subrange(0, (open + part).len() as int));
}

/// What begins with two texts joined begins with the first of them.
proof fn lemma_begins_shorter(part: Seq<char>, more: Seq<char>, whole: Seq<char>)
    requires
        (part + more).is_prefix_of(whole),
    ensures
        part.is_prefix_of(whole),
{
    assert forall|i: int| 0 <= i < part.len() implies part[i] == whole[i] by {
        assert((part + more)[i] == whole.subrange(0, (part + more).len() as int)[i]);
    }
    assert(part =~= whole.subrange(0, part.len() as int));
}

/// Writes the word of `value`, or fails at once where it has none.
fn write_word(sink: &mut Sink, value: &Value) -> (done: Result<(), EncodeError>)
    ensures
        final(sink)@ == old(sink)@.write(word(value@)),
        done == match word_fault(value@) {
            Some(e) => Err(e),
            None => old(sink)@.verdict(word(value@)),
        },
        value@.is_scalar() ==> value@.well_formed(),
{
    proof {
        sink@.lemma_write_nothing();
    }
    match value {
        Value::Absent => Err(EncodeError::UnsupportedValue(Rejected::Absent)),
        Value::Boolean(flag) => Err(EncodeError::UnsupportedValue(Rejected::Boolean(*flag))),
        Value::Integer(i) => sink.write_str(decimal(*i).as_str()),
        Value::Float(numeral) => sink.write_str(numeral.as_str()),
        Value::Text(text) => sink.write_str(shell_word(text.as_str()).as_str()),
        Value::Sequence(_) => Err(EncodeError::NestedCompositeNotSupported),
        Value::Mapping(_) => Err(EncodeError::NestedCompositeNotSupported),
    }
}

/// Writes the items of a sequence between `(` and `)`.
fn write_sequence(sink: &mut Sink, items: &Vec<Value>) -> (done: Result<(), EncodeError>)
    ensures
        final(sink)@ == old(sink)@.write(written(ValueView::Sequence(items_view(*items)))),
        done == outcome(old(sink)@, ValueView::Sequence(items_view(*items))),
        done is Ok ==> ValueView::Sequence(items_view(*items)).well_formed(),
{
    let ghost start = sink@;
    let ghost views = items_view(*items);
    let ghost v = ValueView::Sequence(views);
    let ghost mut sent = seq!['('];
    proof {
        lemma_items_written_grows(views, 0);
        assert(sent =~= seq!['('] + items_written(views.take(0)));
    }
    if let Err(e) = sink.write_str("(") {
        proof {
            reveal_strlit("(");
            assert("("@ =~= sent);
            start.lemma_write_beyond(sent, written(v));
        }
        return Err(e);
    }
    proof {
        reveal_strlit("(");
        assert("("@ =~= sent);
    }
    let mut i: usize = 0;
    while i < items.len()
        invariant
            0 <= i <= items.len(),
            views == items_view(*items),
            v == ValueView::Sequence(views),
            items_fault(views.take(i as int)) is None,
            forall|j: int| 0 <= j < i ==> (#[trigger] views[j]).well_formed(),
            sent == seq!['('] + items_written(views.take(i as int)),
            start == old(sink)@,
            start.fits(sent),
            sink@ == start.write(sent),
        decreases items.len() - i,
    {
        let ghost before = views.take(i as int);
        let ghost after = views.take(i + 1);
        let ghost item_word = word(views[i as int]);
        proof {
            assert(after.drop_last() =~= before);
            assert(after.last() == views[i as int]);
            lemma_items_written_grows(views, i + 1);
            if word_fault(views[i as int]) is None {
                let tail = if items_fault(views) is None {
                    seq![')']
                } else {
                    Seq::empty()
                };
                let with_word = items_written(before) + item_word;
                assert(items_written(after) =~= with_word + seq![' ']);
                lemma_begins_shorter(with_word, seq![' '], items_written(views));
                lemma_begins(seq!['('], with_word, items_written(views), tail);
                lemma_begins(seq!['('], with_word + seq![' '], items_written(views), tail);
                assert(seq!['('] + with_word =~= sent + item_word);
                assert(seq!['('] + (with_word + seq![' ']) =~= sent + item_word + seq![' ']);
            }
            start.lemma_write_twice(sent, item_word);
            start.lemma_write_twice(sent + item_word, seq![' ']);
            reveal_strlit(" ");
            assert(" "@ =~= seq![' ']);
        }
        match write_word(sink, &items[i]) {
            Ok(()) => {},
            Err(e) => {
                proof {
                    if word_fault(views[i as int]) is Some {
                        lemma_items_fault_stays(views, i + 1);
                        assert(written(v) =~= sent);
                        start.lemma_write_nothing();
                        assert(sent + item_word =~= sent);
                    } else {
                        assert((sent + item_word).is_prefix_of(written(v)));
                        start.lemma_write_beyond(sent + item_word, written(v));
                    }
                }
                return Err(e);
            },
        }
        if let Err(e) = sink.write_str(" ") {
            proof {
                assert((sent + item_word + seq![' ']).is_prefix_of(written(v)));
                start.lemma_write_beyond(sent + item_word + seq![' '], written(v));
            }
            return Err(e);
        }
        proof {
            sent = sent + item_word + seq![' '];
            assert(sent =~= seq!['('] + items_written(after));
        }
        i = i + 1;
    }
    proof {
        assert(views.take(i as int) =~= views);
        assert(written(v) =~= sent + seq![')']);
        start.lemma_write_twice(sent, seq![')']);
        reveal_strlit(")");
        assert(")"@ =~= seq![')']);
    }
    sink.write_str(")")
}

/// Writes the entries of a mapping between `(` and `)`.
fn write_mapping(sink: &mut Sink, mapping: &Mapping) -> (done: Result<(), EncodeError>)
    ensures
        final(sink)@ == old(sink)@.write(written(ValueView::Mapping(mapping@))),
        done == outcome(old(sink)@, ValueView::Mapping(mapping@)),
        done is Ok ==> ValueView::Mapping(mapping@).well_formed(),
{
    let ghost start = sink@;
    let ghost entries = mapping@;
    let ghost v = ValueView::Mapping(entries);
    let ghost mut sent = seq!['('];
    proof {
        lemma_entries_written_grows(entries, 0);
        assert(sent =~= seq!['('] + entries_written(entries.take(0)));
        reveal_strlit("(");
        assert("("@ =~= sent);
    }
    if let Err(e) = sink.write_str("(") {
        proof {
            start.lemma_write_beyond(sent, written(v));
        }
        return Err(e);
    }
    let n: usize = mapping.len();
    let mut i: usize = 0;
    while i < n
        invariant
            0 <= i <= n == entries.len(),
            entries == mapping@,
            v == ValueView::Mapping(entries),
            entries_fault(entries.take(i as int)) is None,
            keys_distinct(entries),
            forall|j: int| 0 <= j < i ==> (#[trigger] entries[j]).1.well_formed(),
            sent == seq!['('] + entries_written(entries.take(i as int)),
            start == old(sink)@,
            start.fits(sent),
            sink@ == start.write(sent),
        decreases entries.len() - i,
    {
        let (key, value) = mapping.entry(i);
        let ghost before = entries.take(i as int);
        let ghost after = entries.take(i + 1);
        let ghost key_word = quoted(key@);
        let ghost value_word = word(value@);
        let ghost tail = if entries_fault(entries) is None {
            seq![')']
        } else {
            Seq::empty()
        };
        let ghost all = entries_written(entries);
        let ghost with_key = entries_written(before) + key_word;
        let ghost with_gap = with_key + seq![' '];
        let ghost with_value = with_gap + value_word;
        let ghost with_end = with_value + seq![' '];
        proof {
            assert(after.drop_last() =~= before);
            assert(after.last() == entries[i as int]);
            lemma_entries_written_grows(entries, i + 1);
            reveal_strlit(" ");
            assert(" "@ =~= seq![' ']);
            assert(seq!['('] + with_key =~= sent + key_word);
            assert(seq!['('] + with_gap =~= sent + key_word + seq![' ']);
            assert(seq!['('] + with_value =~= sent + key_word + seq![' '] + value_word);
            assert(seq!['('] + with_end =~= sent + key_word + seq![' '] + value_word + seq![' ']);
            start.lemma_write_twice(sent, key_word);
            start.lemma_write_twice(sent + key_word, seq![' ']);
            start.lemma_write_twice(sent + key_word + seq![' '], value_word);
            start.lemma_write_twice(sent + key_word + seq![' '] + value_word, seq![' ']);
            if value@.is_composite() {
                lemma_entries_fault_stays(entries, i + 1);
                assert(written(v) =~= sent);
            } else if word_fault(value@) is Some {
                lemma_entries_fault_stays(entries, i + 1);
                assert(entries_written(after) =~= with_gap);
                assert(value_word =~= Seq::<char>::empty());
                assert(with_value =~= with_gap);
                assert(written(v) =~= seq!['('] + with_gap);
                lemma_begins_shorter(with_key, seq![' '], all);
                lemma_begins(seq!['('], with_key, all, tail);
            } else {
                assert(entries_written(after) =~= with_end);
                lemma_begins_shorter(with_value, seq![' '], all);
                lemma_begins_shorter(with_gap, value_word, all);
                lemma_begins_shorter(with_key, seq![' '], all);
                lemma_begins(seq!['('], with_key, all, tail);
                lemma_begins(seq!['('], with_gap, all, tail);
                lemma_begins(seq!['('], with_value, all, tail);
                lemma_begins(seq!['('], with_end, all, tail);
            }
        }
        match value {
            Value::Sequence(_) => {
                return Err(EncodeError::NestedCompositeNotSupported);
            },
            Value::Mapping(_) => {
                return Err(EncodeError::NestedCompositeNotSupported);
            },
            _ => {},
        }
        if let Err(e) = sink.write_str(shell_word(key.as_str()).as_str()) {
            proof {
                start.lemma_write_beyond(sent + key_word, written(v));
            }
            return Err(e);
        }
        if let Err(e) = sink.write_str(" ") {
            proof {
                start.lemma_write_beyond(sent + key_word + seq![' '], written(v));
            }
            return Err(e);
        }
        if let Err(e) = write_word(sink, value) {
            proof {
                if word_fault(value@) is None {
                    start.lemma_write_beyond(
                        sent + key_word + seq![' '] + value_word,
                        written(v),
                    );
                }
            }
            return Err(e);
        }
        if let Err(e) = sink.write_str(" ") {
            proof {
                start.lemma_write_beyond(
                    sent + key_word + seq![' '] + value_word + seq![' '],
                    written(v),
                );
            }
            return Err(e);
        }
        proof {
            sent = sent + key_word + seq![' '] + value_word + seq![' '];
        }
        i = i + 1;
    }
    proof {
        assert(entries.take(i as int) =~= entries);
        assert(written(v) =~= sent + seq![')']);
        start.lemma_write_twice(sent, seq![')']);
        reveal_strlit(")");
        assert(")"@ =~= seq![')']);
    }
    sink.write_str(")")
}

/// Writes `value` to `sink` as a shell literal.
///
/// A scalar becomes one word: an integer in decimal notation, a float as it
/// is written, a text bare or between single quotes. A sequence becomes
/// `(`, the word of each item with a space after it, and `)`; a mapping the
/// same with the quoted key before each value. An absent value, a boolean
/// and a composite inside a composite have no literal: the first one met
/// ends the work, and what was written before it stays in the sink. So does
/// what the sink took of a text that did not fit.
pub fn escape_shell(sink: &mut Sink, value: &Value) -> (done: Result<(), EncodeError>)
    ensures
        final(sink)@ == old(sink)@.write(written(value@)),
        done == outcome(old(sink)@, value@),
        done is Ok ==> read_as(value@, written(value@)) == Some(meant(value@)),
        value@ is Absent ==> final(sink)@ == old(sink)@ && done == Err::<(), EncodeError>(
            EncodeError::UnsupportedValue(Rejected::Absent),
        ),
        value@ matches ValueView::Boolean(flag) ==> final(sink)@ == old(sink)@ && done == Err::<
            (),
            EncodeError,
        >(EncodeError::UnsupportedValue(Rejected::Boolean(flag))),
{
    proof {
        sink@.lemma_write_nothing();
    }
    let done = match value {
        Value::Sequence(items) => write_sequence(sink, items),
        Value::Mapping(mapping) => write_mapping(sink, mapping),
        _ => write_word(sink, value),
    };
    proof {
        if done is Ok {
            lemma_round_trip(value@);
        }
    }
    done
}

/// Whether `text` is what [`encode`] returns for `v`: the literal of `v`, or
/// the reason why it has none.
pub open spec fn is_encoding(v: ValueView, text: Result<String, EncodeError>) -> bool {
    match literal(v) {
        Ok(expected) => text matches Ok(got) && got@ == expected,
        Err(e) => text == Err::<String, EncodeError>(e),
    }
}

/// The shell literal of `value`, or why it has none.
pub fn encode(value: &Value) -> (text: Result<String, EncodeError>)
    ensures
        is_encoding(value@, text),
        text matches Ok(got) ==> read_as(value@, got@) == Some(meant(value@)),
{
    let mut sink = Sink::new();
    match escape_shell(&mut sink, value) {
        Ok(()) => Ok(sink.into_string()),
        Err(e) => Err(e),
    }
}

/// Encoding is a function of the value: what it returns for one value it
/// returns for every equal value, the same text or the same failure.
pub proof fn lemma_encoding_is_determined(
    a: ValueView,
    b: ValueView,
    first: Result<String, EncodeError>,
    second: Result<String, EncodeError>,
)
    requires
        a == b,
        is_encoding(a, first),
        is_encoding(b, second),
    ensures
        match (first, second) {
            (Ok(x), Ok(y)) => x@ == y@,
            (Err(e), Err(f)) => e == f,
            _ => false,
        },
{
}

/// As long as no item is absent or a boolean, the items have no fault but
/// that of a composite among them.
proof fn lemma_items_fault_is_nesting(items: Seq<ValueView>, n: int)
    requires
        0 <= n <= items.len(),
        forall|j: int| 0 <= j < n ==> !((#[trigger] items[j]) is Absent || items[j] is Boolean),
    ensures
        items_fault(items.take(n)) is Some <==> exists|j: int|
            0 <= j < n && (#[trigger] items[j]).is_composite(),
        items_fault(items.take(n)) is Some ==> items_fault(items.take(n)) == Some(
            EncodeError::NestedCompositeNotSupported,
        ),
    decreases n,
{
    if n > 0 {
        assert(items.take(n).drop_last() =~= items.take(n - 1));
        assert(items.take(n).last() == items[n - 1]);
        lemma_items_fault_is_nesting(items, n - 1);
        if items[n - 1].is_composite() {
        } else {
            assert(word_fault(items[n - 1]) is None);
        }
    }
}

proof fn lemma_entries_fault_is_nesting(entries: Seq<(Seq<char>, ValueView)>, n: int)
    requires
        0 <= n <= entries.len(),
        forall|j: int|
            0 <= j < n ==> !((#[trigger] entries[j]).1 is Absent || entries[j].1 is Boolean),
    ensures
        entries_fault(entries.take(n)) is Some <==> exists|j: int|
            0 <= j < n && (#[trigger] entries[j]).1.is_composite(),
        entries_fault(entries.take(n)) is Some ==> entries_fault(entries.take(n)) == Some(
            EncodeError::NestedCompositeNotSupported,
        ),
    decreases n,
{
    if n > 0 {
        assert(entries.take(n).drop_last() =~= entries.take(n - 1));
        assert(entries.take(n).last() == entries[n - 1]);
        lemma_entries_fault_is_nesting(entries, n - 1);
        if entries[n - 1].1.is_composite() {
        } else {
            assert(word_fault(entries[n - 1].1) is None);
        }
    }
}

/// A sequence with a composite among its items has no literal, for the
/// reason that composites do not nest, unless an absent or boolean item
/// stands before that composite and is met first. A sink that takes what is
/// written before the composite gets the same answer.
pub proof fn lemma_nested_in_sequence(items: Seq<ValueView>, k: int)
    requires
        0 <= k < items.len(),
        items[k].is_composite(),
        forall|j: int| 0 <= j < k ==> !((#[trigger] items[j]) is Absent || items[j] is Boolean),
    ensures
        literal(ValueView::Sequence(items)) == Err::<Seq<char>, EncodeError>(
            EncodeError::NestedCompositeNotSupported,
        ),
        forall|sink: SinkView| #[trigger]
            sink.fits(written(ValueView::Sequence(items))) ==> outcome(
                sink,
                ValueView::Sequence(items),
            ) == Err::<(), EncodeError>(EncodeError::NestedCompositeNotSupported),
{
    lemma_items_fault_is_nesting(items, k + 1);
    lemma_items_fault_stays(items, k + 1);
}

/// A mapping with a composite among its values has no literal, for the
/// reason that composites do not nest, unless an absent or boolean value
/// stands before that composite and is met first. A sink that takes what is
/// written before the composite gets the same answer.
pub proof fn lemma_nested_in_mapping(entries: Seq<(Seq<char>, ValueView)>, k: int)
    requires
        0 <= k < entries.len(),
        entries[k].1.is_composite(),
        forall|j: int|
            0 <= j < k ==> !((#[trigger] entries[j]).1 is Absent || entries[j].1 is Boolean),
    ensures
        literal(ValueView::Mapping(entries)) == Err::<Seq<char>, EncodeError>(
            EncodeError::NestedCompositeNotSupported,
        ),
        forall|sink: SinkView| #[trigger]
            sink.fits(written(ValueView::Mapping(entries))) ==> outcome(
                sink,
                ValueView::Mapping(entries),
            ) == Err::<(), EncodeError>(EncodeError::NestedCompositeNotSupported),
{
    lemma_entries_fault_is_nesting(entries, k + 1);
    lemma_entries_fault_stays(entries, k + 1);
}

} // verus!
