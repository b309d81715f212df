//! Decoded documents: values in the shape of JSON.

use crate::entries;
use crate::entries::stands_before;
use crate::text::{push_text, same_text};
use vstd::prelude::*;

verus! {

/// A number, in the forms in which it is known: as an integer, and as the bits
/// of a float of single and of double precision.
#[derive(Debug, Clone, Copy, PartialEq, Eq, Structural)]
pub struct Number {
    pub integer: Option<i128>,
    pub single: Option<u32>,
    pub double: Option<u64>,
}

/// A decoded value. The entries of an object stand in the order of their keys.
#[derive(Debug, PartialEq, Eq)]
pub enum Value {
    Null,
    Bool(bool),
    Number(Number),
    Text(String),
    Array(Vec<Value>),
    Object(Vec<(String, Value)>),
}

/// What a value holds.
pub ghost enum Model {
    Null,
    Bool(bool),
    Number(Number),
    Text(Seq<char>),
    Array(Seq<Model>),
    Object(Seq<(Seq<char>, Model)>),
}

/// What a value holds.
pub open spec fn model(value: Value) -> Model
    decreases value,
{
    match value {
        Value::Null => Model::Null,
        Value::Bool(truth) => Model::Bool(truth),
        Value::Number(number) => Model::Number(number),
        Value::Text(text) => Model::Text(text@),
        Value::Array(items) => Model::Array(models(items@)),
        Value::Object(entries) => Model::Object(entry_models(entries@)),
    }
}

/// What a row of values holds.
pub open spec fn models(items: Seq<Value>) -> Seq<Model>
    decreases items,
{
    if items.len() == 0 {
        Seq::empty()
    } else {
        models(items.drop_last()).push(model(items.last()))
    }
}

/// What a row of entries holds.
pub open spec fn entry_models(entries: Seq<(String, Value)>) -> Seq<(Seq<char>, Model)>
    decreases entries,
{
    if entries.len() == 0 {
        Seq::empty()
    } else {
        entry_models(entries.drop_last()).push((entries.last().0@, model(entries.last().1)))
    }
}

impl View for Value {
    type V = Model;

    open spec fn view(&self) -> Model {
        model(*self)
    }
}

/// What a row of values holds, item by item.
pub proof fn lemma_models(items: Seq<Value>)
    ensures
        models(items).len() == items.len(),
        forall|i: int| 0 <= i < items.len() ==> #[trigger] models(items)[i] == model(items[i]),
    decreases items.len(),
{
    if items.len() > 0 {
        lemma_models(items.drop_last());
    }
}

/// What a row of entries holds, entry by entry.
pub proof fn lemma_entry_models(entries: Seq<(String, Value)>)
    ensures
        entry_models(entries).len() == entries.len(),
        forall|i: int|
            0 <= i < entries.len() ==> #[trigger] entry_models(entries)[i] == (
                entries[i].0@,
                model(entries[i].1),
            ),
    decreases entries.len(),
{
    if entries.len() > 0 {
        lemma_entry_models(entries.drop_last());
    }
}

/// A value behind the others.
pub proof fn lemma_models_push(items: Seq<Value>, item: Value)
    ensures
        models(items.push(item)) == models(items).push(model(item)),
{
    assert(items.push(item).drop_last() =~= items);
}

/// An entry behind the others.
pub proof fn lemma_entry_models_push(entries: Seq<(String, Value)>, entry: (String, Value))
    ensures
        entry_models(entries.push(entry)) == entry_models(entries).push(
            (entry.0@, model(entry.1)),
        ),
{
    assert(entries.push(entry).drop_last() =~= entries);
}

/// An integer.
pub open spec fn integer(value: int) -> Model {
    Model::Number(Number { integer: Some(value as i128), single: None, double: None })
}

/// Whether the bits of a float of single precision are those of a number, and
/// not of an infinity or of none.
pub open spec fn finite_single(bits: nat) -> bool {
    bits / 0x80_0000 % 256 != 255
}

/// Whether the bits of a float of double precision are those of a number, and
/// not of an infinity or of none.
pub open spec fn finite_double(bits: nat) -> bool {
    bits / 0x10_0000_0000_0000 % 2048 != 2047
}

/// The bits of a float of single precision. Documents have no infinities.
pub open spec fn single(bits: nat) -> Model {
    if finite_single(bits) {
        Model::Number(Number { integer: None, single: Some(bits as u32), double: None })
    } else {
        Model::Null
    }
}

/// The bits of a float of double precision. Documents have no infinities.
pub open spec fn double(bits: nat) -> Model {
    if finite_double(bits) {
        Model::Number(Number { integer: None, single: None, double: Some(bits as u64) })
    } else {
        Model::Null
    }
}

impl Value {
    /// An integer.
    pub fn integer(value: i128) -> (result: Value)
        ensures
            result@ == integer(value as int),
    {
        Value::Number(Number { integer: Some(value), single: None, double: None })
    }

    /// The bits of a float of single precision.
    pub fn single(bits: u32) -> (result: Value)
        ensures
            result@ == single(bits as nat),
    {
        if (bits / 0x80_0000) % 256 != 255 {
            Value::Number(Number { integer: None, single: Some(bits), double: None })
        } else {
            Value::Null
        }
    }

    /// The bits of a float of double precision.
    pub fn double(bits: u64) -> (result: Value)
        ensures
            result@ == double(bits as nat),
    {
        if (bits / 0x10_0000_0000_0000) % 2048 != 2047 {
            Value::Number(Number { integer: None, single: None, double: Some(bits) })
        } else {
            Value::Null
        }
    }

    /// A text.
    pub fn text(value: &str) -> (result: Value)
        ensures
            result@ == Model::Text(value@),
    {
        Value::Text(copy_text(value))
    }

    /// A copy of the value.
    pub fn copy(&self) -> (result: Value)
        ensures
            result@ == self@,
        decreases self,
    {
        match self {
            Value::Null => Value::Null,
            Value::Bool(truth) => Value::Bool(*truth),
            Value::Number(number) => Value::Number(*number),
            Value::Text(text) => Value::Text(copy_text(text.as_str())),
            Value::Array(items) => {
                let mut copies: Vec<Value> = Vec::new();
                let mut i: usize = 0;
                while i < items.len()
                    invariant
                        i <= items@.len(),
                        *self == Value::Array(*items),
                        models(copies@) == models(items@.subrange(0, i as int)),
                    decreases items@.len() - i,
                {
                    assert(decreases_to!(self => self->Array_0));
                    assert(decreases_to!(items => items@));
                    assert(decreases_to!(items@ => items@[i as int]));
                    let copy: Value = items[i].copy();
                    proof {
                        lemma_models_push(copies@, copy);
                        lemma_models_push(items@.subrange(0, i as int), items@[i as int]);
                        assert(items@.subrange(0, i + 1) =~= items@.subrange(0, i as int).push(
                            items@[i as int],
                        ));
                    }
                    copies.push(copy);
                    i = i + 1;
                }
                assert(items@.subrange(0, i as int) =~= items@);
                Value::Array(copies)
            },
            Value::Object(entries) => {
                let mut copies: Vec<(String, Value)> = Vec::new();
                let mut i: usize = 0;
                while i < entries.len()
                    invariant
                        i <= entries@.len(),
                        *self == Value::Object(*entries),
                        entry_models(copies@) == entry_models(entries@.subrange(0, i as int)),
                    decreases entries@.len() - i,
                {
                    assert(decreases_to!(self => self->Object_0));
                    assert(decreases_to!(entries => entries@));
                    assert(decreases_to!(entries@ => entries@[i as int]));
                    assert(decreases_to!(entries@[i as int] => entries@[i as int].1));
                    let key: String = copy_text(entries[i].0.as_str());
                    let copy: Value = entries[i].1.copy();
                    let entry: (String, Value) = (key, copy);
                    proof {
                        lemma_entry_models_push(copies@, entry);
                        lemma_entry_models_push(
                            entries@.subrange(0, i as int),
                            entries@[i as int],
                        );
                        assert(entries@.subrange(0, i + 1) =~= entries@.subrange(
                            0,
                            i as int,
                        ).push(entries@[i as int]));
                    }
                    copies.push(entry);
                    i = i + 1;
                }
                assert(entries@.subrange(0, i as int) =~= entries@);
                Value::Object(copies)
            },
        }
    }

    /// The value of an object under a key.
    pub fn get(&self, key: &str) -> (result: Option<&Value>)
        ensures
            match member(self@, key@) {
                Some(found) => result matches Some(value) && value@ == found,
                None => result is None,
            },
    {
        match self {
            Value::Object(entries) => find_entry(entries, key),
            _ => None,
        }
    }

    /// The text of a text.
    pub fn as_text(&self) -> (result: Option<&str>)
        ensures
            match text_of(self@) {
                Some(found) => result matches Some(text) && text@ == found,
                None => result is None,
            },
    {
        match self {
            Value::Text(text) => Some(text.as_str()),
            _ => None,
        }
    }

    /// The integer of a number that is one.
    pub fn as_integer(&self) -> (result: Option<i128>)
        ensures
            result == integer_of(self@),
    {
        match self {
            Value::Number(number) => number.integer,
            _ => None,
        }
    }
}

/// The value of an object under a key.
pub open spec fn member(value: Model, key: Seq<char>) -> Option<Model> {
    match value {
        Model::Object(entries) => entries::find(entries, key),
        _ => None,
    }
}

/// The text of a text.
pub open spec fn text_of(value: Model) -> Option<Seq<char>> {
    match value {
        Model::Text(text) => Some(text),
        _ => None,
    }
}

/// The integer of a number that is one.
pub open spec fn integer_of(value: Model) -> Option<i128> {
    match value {
        Model::Number(number) => number.integer,
        _ => None,
    }
}

/// A copy of a text.
pub fn copy_text(value: &str) -> (result: String)
    ensures
        result@ == value@,
{
    let mut text: String = String::new();
    push_text(&mut text, value);
    assert(text@ =~= value@);
    text
}

/// Finds the value under a key.
pub fn find_entry<'a>(entries: &'a Vec<(String, Value)>, key: &str) -> (result: Option<&'a Value>)
    ensures
        match entries::find(entry_models(entries@), key@) {
            Some(found) => result matches Some(value) && value@ == found,
            None => result is None,
        },
{
    let ghost all = entry_models(entries@);
    proof {
        lemma_entry_models(entries@);
        assert(all.subrange(0, all.len() as int) =~= all);
    }
    let mut i: usize = 0;
    while i < entries.len()
        invariant
            i <= entries@.len(),
            all == entry_models(entries@),
            all.len() == entries@.len(),
            forall|k: int|
                0 <= k < entries@.len() ==> #[trigger] all[k] == (
                    entries@[k].0@,
                    model(entries@[k].1),
                ),
            entries::find(all, key@) == entries::find(
                all.subrange(i as int, all.len() as int),
                key@,
            ),
        decreases entries@.len() - i,
    {
        let ghost rest = all.subrange(i as int, all.len() as int);
        assert(rest[0] == all[i as int]);
        if same_text(entries[i].0.as_str(), key) {
            return Some(&entries[i].1);
        }
        assert(rest.drop_first() =~= all.subrange(i + 1, all.len() as int));
        i = i + 1;
    }
    None
}

/// Sets the value under a key.
pub fn set_entry(entries: &mut Vec<(String, Value)>, key: &str, value: Value)
    ensures
        entry_models(final(entries)@) == entries::put(
            entry_models(old(entries)@),
            key@,
            value@,
        ),
{
    let ghost all = entry_models(entries@);
    let ghost before = entries@;
    proof {
        lemma_entry_models(entries@);
    }
    let mut i: usize = 0;
    let mut ahead: bool = true;
    while i < entries.len() && ahead
        invariant
            i <= entries@.len(),
            entries@ == before,
            all == entry_models(before),
            all.len() == before.len(),
            forall|k: int|
                0 <= k < before.len() ==> #[trigger] all[k] == (before[k].0@, model(before[k].1)),
            forall|k: int| 0 <= k < i ==> entries::text_less(#[trigger] all[k].0, key@),
            !ahead ==> i < entries@.len() && !entries::text_less(all[i as int].0, key@),
        decreases
            entries@.len() - i + (if ahead {
                1int
            } else {
                0int
            }),
    {
        assert(all[i as int].0 == entries@[i as int].0@);
        if stands_before(entries[i].0.as_str(), key) {
            i = i + 1;
        } else {
            ahead = false;
        }
    }
    proof {
        entries::lemma_place_is(all, key@, i as nat);
    }
    let name: String = copy_text(key);
    let entry: (String, Value) = (name, value);
    let ghost wanted = entries::put(all, key@, value@);
    if i < entries.len() {
        assert(all[i as int].0 == entries@[i as int].0@);
        if same_text(entries[i].0.as_str(), key) {
            entries.set(i, entry);
            proof {
                lemma_entry_models(entries@);
                assert(entry_models(entries@) =~= wanted);
            }
            return;
        }
    }
    entries.insert(i, entry);
    proof {
        lemma_entry_models(entries@);
        assert forall|k: int| 0 <= k < wanted.len() implies entry_models(entries@)[k]
            == wanted[k] by {
            if k < i {
                assert(entries@[k] == before[k]);
                assert(all[k] == (before[k].0@, model(before[k].1)));
            } else if k > i {
                assert(entries@[k] == before[k - 1]);
                assert(all[k - 1] == (before[k - 1].0@, model(before[k - 1].1)));
            }
        }
        assert(entry_models(entries@) =~= wanted);
    }
}

} // verus!
