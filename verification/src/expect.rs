//! What a shell prints when it is handed a literal and asked for the value.
//!
//! A script that assigns a literal to a variable and prints the variable, one
//! line for each word, is the way to see whether the literal says what was
//! meant. The functions here give the text that such a script has to print.

use crate::decimal::{decimal, decimal_text};
use crate::value::{items_view, Mapping, Value, ValueView};
use vstd::prelude::*;
use vstd::string::StringExecFns;

verus! {

/// A scalar as plain text: an integer in decimal notation, a float as it is
/// written, a text as it is.
pub open spec fn canonical(v: ValueView) -> Seq<char> {
    match v {
        ValueView::Integer(i) => decimal_text(i),
        ValueView::Float(text) => text,
        ValueView::Text(text) => text,
        _ => Seq::empty(),
    }
}

/// The plain texts of `items`, in order.
pub open spec fn canonical_items(items: Seq<ValueView>) -> Seq<Seq<char>> {
    Seq::new(items.len(), |i: int| canonical(items[i]))
}

/// Key, plain text of the value, key, plain text of the value, and so on
/// through `entries`.
pub open spec fn canonical_entries(entries: Seq<(Seq<char>, ValueView)>) -> Seq<Seq<char>> {
    Seq::new(
        2 * entries.len(),
        |i: int|
            if i % 2 == 0 {
                entries[i / 2].0
            } else {
                canonical(entries[i / 2].1)
            },
    )
}

/// The words that the literal of `v` is meant to say: the plain text of a
/// scalar; the plain texts of the items of a sequence; for a mapping each
/// key and behind it the plain text of its value.
pub open spec fn meant(v: ValueView) -> Seq<Seq<char>> {
    match v {
        ValueView::Sequence(items) => canonical_items(items),
        ValueView::Mapping(entries) => canonical_entries(entries),
        _ => seq![canonical(v)],
    }
}

/// Every item of `items` is a scalar.
pub open spec fn all_scalar(items: Seq<ValueView>) -> bool {
    forall|i: int| 0 <= i < items.len() ==> (#[trigger] items[i]).is_scalar()
}

/// Every value in `entries` is a scalar.
pub open spec fn all_values_scalar(entries: Seq<(Seq<char>, ValueView)>) -> bool {
    forall|i: int| 0 <= i < entries.len() ==> (#[trigger] entries[i]).1.is_scalar()
}

/// The words, each on a line of its own.
pub open spec fn lines(words: Seq<Seq<char>>) -> Seq<char>
    decreases words.len(),
{
    if words.len() == 0 {
        Seq::empty()
    } else {
        lines(words.drop_last()) + words.last() + seq!['\n']
    }
}

/// Appends the plain text of a scalar and a line end; leaves `out` as it is
/// and says no where `value` is no scalar.
fn push_line(out: &mut String, value: &Value) -> (scalar: bool)
    ensures
        scalar == value@.is_scalar(),
        scalar ==> final(out)@ == old(out)@ + canonical(value@) + seq!['\n'],
        !scalar ==> final(out)@ == old(out)@,
{
    match value {
        Value::Integer(i) => {
            out.append(decimal(*i).as_str());
        },
        Value::Float(numeral) => {
            out.append(numeral.as_str());
        },
        Value::Text(text) => {
            out.append(text.as_str());
        },
        _ => {
            return false;
        },
    }
    out.push('\n');
    true
}

/// The text that a shell prints for a scalar: its plain text on one line.
/// `None` where `value` is no scalar.
pub fn expected_scalar_output(value: &Value) -> (out: Option<String>)
    ensures
        out is Some == value@.is_scalar(),
        out matches Some(text) ==> text@ == lines(meant(value@)),
{
    let mut text = String::new();
    if push_line(&mut text, value) {
        proof {
            let one = seq![canonical(value@)];
            assert(one.drop_last() =~= Seq::<Seq<char>>::empty());
            assert(lines(one.drop_last()) =~= Seq::<char>::empty());
            assert(lines(one) =~= canonical(value@) + seq!['\n']);
        }
        Some(text)
    } else {
        None
    }
}

/// The text that a shell prints for an array: the plain text of each item on
/// a line of its own, in order. `None` where an item is no scalar.
pub fn expected_array_output(items: &Vec<Value>) -> (out: Option<String>)
    ensures
        out is Some == all_scalar(items_view(*items)),
        out matches Some(text) ==> text@ == lines(meant(ValueView::Sequence(items_view(*items)))),
{
    let ghost views = items_view(*items);
    let mut text = String::new();
    let mut i: usize = 0;
    while i < items.len()
        invariant
            0 <= i <= items.len(),
            views == items_view(*items),
            all_scalar(views.take(i as int)),
            text@ == lines(canonical_items(views.take(i as int))),
        decreases items.len() - i,
    {
        if !push_line(&mut text, &items[i]) {
            assert(!views[i as int].is_scalar());
            return None;
        }
        proof {
            let before = canonical_items(views.take(i as int));
            let after = canonical_items(views.take(i + 1));
            assert(after.drop_last() =~= before);
            assert(after.last() == canonical(views[i as int]));
            assert forall|j: int| 0 <= j < i + 1 implies (#[trigger] views.take(i + 1)[j]).is_scalar() by {
                if j < i {
                    assert(views.take(i as int)[j].is_scalar());
                }
            }
        }
        i = i + 1;
    }
    proof {
        assert(views.take(i as int) =~= views);
    }
    Some(text)
}

/// The text that a shell prints for an associative array: for each entry
/// the key on one line and the plain text of the value on the next, in the
/// order of the entries. `None` where a value is no scalar.
pub fn expected_associative_array_output(mapping: &Mapping) -> (out: Option<String>)
    ensures
        out is Some == all_values_scalar(mapping@),
        out matches Some(text) ==> text@ == lines(meant(ValueView::Mapping(mapping@))),
{
    let ghost entries = mapping@;
    let mut text = String::new();
    let mut i: usize = 0;
    while i < mapping.len()
        invariant
            0 <= i <= entries.len(),
            entries == mapping@,
            all_values_scalar(entries.take(i as int)),
            text@ == lines(canonical_entries(entries.take(i as int))),
        decreases entries.len() - i,
    {
        let (key, value) = mapping.entry(i);
        let ghost start = text@;
        text.append(key.as_str());
        text.push('\n');
        if !push_line(&mut text, value) {
            assert(!entries[i as int].1.is_scalar());
            return None;
        }
        proof {
            let before = canonical_entries(entries.take(i as int));
            let after = canonical_entries(entries.take(i + 1));
            let with_key = after.drop_last();
            assert(with_key.drop_last() =~= before);
            assert(with_key.last() == key@);
            assert(after.last() == canonical(value@));
            assert(lines(with_key) =~= lines(before) + key@ + seq!['\n']);
            assert(lines(after) =~= lines(with_key) + canonical(value@) + seq!['\n']);
            assert(text@ =~= start + key@ + seq!['\n'] + canonical(value@) + seq!['\n']);
            assert forall|j: int| 0 <= j < i + 1 implies (#[trigger] entries.take(i + 1)[j]).1.is_scalar() by {
                if j < i {
                    assert(entries.take(i as int)[j].1.is_scalar());
                }
            }
        }
        i = i + 1;
    }
    proof {
        assert(entries.take(i as int) =~= entries);
    }
    Some(text)
}

} // verus!
