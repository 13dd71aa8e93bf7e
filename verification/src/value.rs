//! The values that can be written as shell literals.

use crate::numeral::{is_numeral, Numeral};
use vstd::prelude::*;
use vstd::string::StringExecFns;

verus! {

/// A dynamically typed value: a scalar, or one level of scalars in a list or
/// under text keys. The type can hold a composite inside a composite; no
/// literal exists for one.
#[derive(Debug, PartialEq)]
pub enum Value {
    /// No value.
    Absent,
    /// A flag.
    Boolean(bool),
    /// A whole number.
    Integer(i64),
    /// A floating-point number, as it is written.
    Float(Numeral),
    /// Any text.
    Text(String),
    /// A list, in order.
    Sequence(Vec<Value>),
    /// Values under distinct text keys.
    Mapping(Mapping),
}

/// Values under distinct text keys, in the order in which the keys came.
#[derive(Debug, PartialEq)]
pub struct Mapping {
    entries: Vec<(String, Value)>,
}

/// A [`Value`] as mathematics sees it.
pub enum ValueView {
    /// No value.
    Absent,
    /// A flag.
    Boolean(bool),
    /// A whole number.
    Integer(int),
    /// A floating-point number: the characters it is written with.
    Float(Seq<char>),
    /// A text: its characters.
    Text(Seq<char>),
    /// A list: its items, in order.
    Sequence(Seq<ValueView>),
    /// A mapping: its entries, key and value, in the order of the mapping.
    Mapping(Seq<(Seq<char>, ValueView)>),
}

impl View for Value {
    type V = ValueView;

    open spec fn view(&self) -> ValueView
        decreases self,
    {
        match self {
            Value::Absent => ValueView::Absent,
            Value::Boolean(flag) => ValueView::Boolean(*flag),
            Value::Integer(i) => ValueView::Integer(*i as int),
            Value::Float(numeral) => ValueView::Float(numeral@),
            Value::Text(text) => ValueView::Text(text@),
            Value::Sequence(items) => ValueView::Sequence(items_view(*items)),
            Value::Mapping(mapping) => ValueView::Mapping(mapping.view()),
        }
    }
}

/// The items of a sequence as mathematics sees them.
pub open spec fn items_view(items: Vec<Value>) -> Seq<ValueView>
    decreases items,
{
    Seq::new(
        items.len() as nat,
        |i: int|
            if 0 <= i < items.len() {
                items[i].view()
            } else {
                ValueView::Absent
            },
    )
}

/// The entries of a mapping as mathematics sees them.
spec fn entries_view(entries: Vec<(String, Value)>) -> Seq<(Seq<char>, ValueView)>
    decreases entries,
{
    Seq::new(
        entries.len() as nat,
        |i: int|
            if 0 <= i < entries.len() {
                (entries[i].0@, entries[i].1.view())
            } else {
                (Seq::empty(), ValueView::Absent)
            },
    )
}

impl View for Mapping {
    type V = Seq<(Seq<char>, ValueView)>;

    closed spec fn view(&self) -> Seq<(Seq<char>, ValueView)>
        decreases self,
    {
        entries_view(self.entries)
    }
}

/// No key occurs twice among `entries`.
pub open spec fn keys_distinct(entries: Seq<(Seq<char>, ValueView)>) -> bool {
    forall|i: int, j: int|
        0 <= i < j < entries.len() ==> (#[trigger] entries[i]).0 != (#[trigger] entries[j]).0
}

/// Whether `key` is a key among `entries`.
pub open spec fn has_key(entries: Seq<(Seq<char>, ValueView)>, key: Seq<char>) -> bool {
    exists|i: int| 0 <= i < entries.len() && (#[trigger] entries[i]).0 == key
}

/// A place at which `key` stands among `entries`. Where the keys differ from
/// one another there is one such place at most.
pub open spec fn place_of(entries: Seq<(Seq<char>, ValueView)>, key: Seq<char>) -> int {
    choose|i: int| 0 <= i < entries.len() && (#[trigger] entries[i]).0 == key
}

/// `entries` with `value` under `key`: in the place of the entry that has
/// the key, or at the end where none has it.
pub open spec fn put(entries: Seq<(Seq<char>, ValueView)>, key: Seq<char>, value: ValueView) -> Seq<
    (Seq<char>, ValueView),
> {
    if has_key(entries, key) {
        entries.update(place_of(entries, key), (key, value))
    } else {
        entries.push((key, value))
    }
}

impl ValueView {
    /// A sequence or a mapping.
    pub open spec fn is_composite(self) -> bool {
        self is Sequence || self is Mapping
    }

    /// An integer, a float or a text: the values that have a word of their
    /// own.
    pub open spec fn is_scalar(self) -> bool {
        self is Integer || self is Float || self is Text
    }

    /// What the types promise of a value: a float is written as a number, and
    /// the keys of a mapping differ from one another.
    pub open spec fn well_formed(self) -> bool
        decreases self,
    {
        match self {
            ValueView::Float(text) => is_numeral(text),
            ValueView::Sequence(items) => forall|i: int|
                0 <= i < items.len() ==> (#[trigger] items[i]).well_formed(),
            ValueView::Mapping(entries) => keys_distinct(entries) && forall|i: int|
                0 <= i < entries.len() ==> (#[trigger] entries[i]).1.well_formed(),
            _ => true,
        }
    }
}

impl Mapping {
    #[verifier::type_invariant]
    spec fn keys_differ(self) -> bool {
        keys_distinct(self@)
    }

    /// A mapping without entries.
    pub fn new() -> (mapping: Mapping)
        ensures
            mapping@ == Seq::<(Seq<char>, ValueView)>::empty(),
    {
        Mapping { entries: Vec::new() }
    }

    /// The number of entries. The keys of a mapping differ from one another.
    pub fn len(&self) -> (n: usize)
        ensures
            n == self@.len(),
            keys_distinct(self@),
    {
        proof {
            use_type_invariant(self);
        }
        self.entries.len()
    }

    /// The entry at place `i`, counted from 0. The keys of a mapping differ
    /// from one another.
    pub fn entry(&self, i: usize) -> (entry: (&String, &Value))
        requires
            i < self@.len(),
        ensures
            (entry.0@, entry.1@) == self@[i as int],
            keys_distinct(self@),
    {
        proof {
            use_type_invariant(self);
        }
        (&self.entries[i].0, &self.entries[i].1)
    }

    /// Where `key` stands, if it is a key of the mapping.
    fn place(&self, key: &String) -> (place: Option<usize>)
        ensures
            place is Some == has_key(self@, key@),
            place matches Some(i) ==> i == place_of(self@, key@),
            has_key(self@, key@) ==> 0 <= place_of(self@, key@) < self@.len() && self@[place_of(
                self@,
                key@,
            )].0 == key@,
    {
        proof {
            use_type_invariant(self);
        }
        let mut i: usize = 0;
        while i < self.entries.len()
            invariant
                i <= self.entries.len(),
                keys_distinct(self@),
                forall|j: int| 0 <= j < i ==> (#[trigger] self@[j]).0 != key@,
            decreases self.entries.len() - i,
        {
            if self.entries[i].0 == *key {
                proof {
                    assert(self@[i as int].0 == key@);
                    let j = place_of(self@, key@);
                    assert(self@[j].0 == key@);
                    if j < i {
                        assert(self@[j].0 != self@[i as int].0);
                    }
                    if i < j {
                        assert(self@[i as int].0 != self@[j].0);
                    }
                }
                return Some(i);
            }
            i = i + 1;
        }
        None
    }

    /// The value under `key`, if the mapping has that key.
    pub fn get(&self, key: &str) -> (found: Option<&Value>)
        ensures
            found is Some == has_key(self@, key@),
            found matches Some(value) ==> value@ == self@[place_of(self@, key@)].1,
    {
        let key = String::from_str(key);
        match self.place(&key) {
            Some(i) => Some(&self.entries[i].1),
            None => None,
        }
    }

    /// Puts `value` under `key`. A new key goes to the end; under a key that
    /// the mapping has, the new value takes the place of the old one.
    pub fn insert(&mut self, key: String, value: Value)
        ensures
            final(self)@ == put(old(self)@, key@, value@),
            keys_distinct(final(self)@),
    {
        proof {
            use_type_invariant(&*self);
        }
        let place = self.place(&key);
        let mut entries: Vec<(String, Value)> = Vec::new();
        core::mem::swap(&mut self.entries, &mut entries);
        match place {
            Some(i) => {
                entries.set(i, (key, value));
            },
            None => {
                entries.push((key, value));
            },
        }
        proof {
            let before = old(self)@;
            let after = entries_view(entries);
            match place {
                Some(i) => {
                    assert(after =~= before.update(i as int, (key@, value@)));
                    assert forall|a: int, b: int| 0 <= a < b < after.len() implies (
                    #[trigger] after[a]).0 != (#[trigger] after[b]).0 by {
                        assert(after[a].0 == before[a].0);
                        assert(after[b].0 == before[b].0);
                    }
                },
                None => {
                    assert(after =~= before.push((key@, value@)));
                    assert forall|a: int, b: int| 0 <= a < b < after.len() implies (
                    #[trigger] after[a]).0 != (#[trigger] after[b]).0 by {
                        assert(after[a] == before[a]);
                        if b < before.len() {
                            assert(after[b] == before[b]);
                        }
                    }
                },
            }
        }
        self.entries = entries;
    }
}

} // verus!
