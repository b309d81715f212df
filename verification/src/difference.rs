//! The first place at which two documents differ.

use crate::entries;
use crate::number_text;
use crate::number_text::decimal_text;
use crate::text::{push_text, same_text};
use crate::value;
use crate::value::{copy_text, find_entry, Number, Value};
use vstd::prelude::*;

verus! {

/// What stands at a place, in short.
pub ghost enum SeenModel {
    Missing,
    Null,
    Bool(bool),
    Number(Number),
    Text(Seq<char>),
    Array(nat),
    Object(nat),
}

/// What stands at a place, in short.
#[derive(Debug, PartialEq, Eq)]
pub enum Seen {
    Missing,
    Null,
    Bool(bool),
    Number(Number),
    Text(String),
    Array(usize),
    Object(usize),
}

impl View for Seen {
    type V = SeenModel;

    open spec fn view(&self) -> SeenModel {
        match self {
            Seen::Missing => SeenModel::Missing,
            Seen::Null => SeenModel::Null,
            Seen::Bool(truth) => SeenModel::Bool(*truth),
            Seen::Number(number) => SeenModel::Number(*number),
            Seen::Text(text) => SeenModel::Text(text@),
            Seen::Array(length) => SeenModel::Array(*length as nat),
            Seen::Object(length) => SeenModel::Object(*length as nat),
        }
    }
}

/// What stands at a place, in short.
pub open spec fn seen(m: Option<value::Model>) -> SeenModel {
    match m {
        None => SeenModel::Missing,
        Some(value::Model::Null) => SeenModel::Null,
        Some(value::Model::Bool(truth)) => SeenModel::Bool(truth),
        Some(value::Model::Number(number)) => SeenModel::Number(number),
        Some(value::Model::Text(text)) => SeenModel::Text(text),
        Some(value::Model::Array(items)) => SeenModel::Array(items.len()),
        Some(value::Model::Object(entries)) => SeenModel::Object(entries.len()),
    }
}

/// A value, if there is one.
pub open spec fn optional_model(value: Option<&Value>) -> Option<value::Model> {
    match value {
        Some(value) => Some(value@),
        None => None,
    }
}

/// Looks at a value in short.
pub fn look(value: Option<&Value>) -> (result: Seen)
    ensures
        result@ == seen(optional_model(value)),
{
    match value {
        None => Seen::Missing,
        Some(Value::Null) => Seen::Null,
        Some(Value::Bool(truth)) => Seen::Bool(*truth),
        Some(Value::Number(number)) => Seen::Number(*number),
        Some(Value::Text(text)) => Seen::Text(copy_text(text.as_str())),
        Some(Value::Array(items)) => {
            proof {
                value::lemma_models(items@);
            }
            Seen::Array(items.len())
        },
        Some(Value::Object(entries)) => {
            proof {
                value::lemma_entry_models(entries@);
            }
            Seen::Object(entries.len())
        },
    }
}

/// What stands at a place, in words; a number that is no integer has none here.
pub open spec fn words(m: SeenModel) -> Option<Seq<char>> {
    match m {
        SeenModel::Missing => Some("<missing>"@),
        SeenModel::Null => Some("null"@),
        SeenModel::Bool(truth) => Some(
            if truth {
                "true"@
            } else {
                "false"@
            },
        ),
        SeenModel::Number(number) => match number.integer {
            Some(n) => if i64::MIN <= n <= i64::MAX {
                Some(number_text::signed_decimal(n as int))
            } else if i64::MAX < n <= u64::MAX {
                Some(number_text::decimal(n as nat))
            } else {
                None
            },
            None => None,
        },
        SeenModel::Text(_) => None,
        SeenModel::Array(length) => Some("array length "@ + number_text::decimal(length)),
        SeenModel::Object(length) => Some(
            "object with "@ + number_text::decimal(length) + " keys"@,
        ),
    }
}

impl Seen {
    /// Puts what was seen in words. Texts, and numbers that are no integers,
    /// are left to the caller to write.
    pub fn compact(&self) -> (result: Option<String>)
        ensures
            match words(self@) {
                Some(found) => result matches Some(r) && r@ == found,
                None => result is None,
            },
    {
        match self {
            Seen::Missing => Some(copy_text("<missing>")),
            Seen::Null => Some(copy_text("null")),
            Seen::Bool(truth) => Some(
                if *truth {
                    copy_text("true")
                } else {
                    copy_text("false")
                },
            ),
            Seen::Number(number) => match number.integer {
                Some(n) => {
                    if -0x8000_0000_0000_0000 <= n && n <= 0x7fff_ffff_ffff_ffff {
                        Some(number_text::signed_decimal_text(n as i64))
                    } else if 0 <= n && n <= 0xffff_ffff_ffff_ffff {
                        Some(decimal_text(n as u64))
                    } else {
                        None
                    }
                },
                None => None,
            },
            Seen::Text(_) => None,
            Seen::Array(length) => {
                let mut out: String = copy_text("array length ");
                push_text(&mut out, decimal_text(*length as u64).as_str());
                Some(out)
            },
            Seen::Object(length) => {
                let mut out: String = copy_text("object with ");
                push_text(&mut out, decimal_text(*length as u64).as_str());
                push_text(&mut out, " keys");
                Some(out)
            },
        }
    }
}

/// A place at which two documents differ.
pub ghost struct DifferenceModel {
    pub path: Seq<char>,
    pub expected: SeenModel,
    pub actual: SeenModel,
}

/// A place at which two documents differ, and what stands there in both.
#[derive(Debug, PartialEq, Eq)]
pub struct Difference {
    pub path: String,
    pub expected: Seen,
    pub actual: Seen,
}

impl View for Difference {
    type V = DifferenceModel;

    open spec fn view(&self) -> DifferenceModel {
        DifferenceModel { path: self.path@, expected: self.expected@, actual: self.actual@ }
    }
}

/// The bits of zero in double precision, with either sign.
pub open spec fn is_zero(bits: u64) -> bool {
    bits == 0 || bits == 0x8000_0000_0000_0000
}

/// Whether two numbers are the same: both integers and equal, or both floats
/// and equal.
pub open spec fn same_number(a: Number, b: Number) -> bool {
    match (a.integer, b.integer) {
        (Some(m), Some(n)) => m == n,
        (None, None) => match (a.double, b.double) {
            (Some(m), Some(n)) => m == n || (is_zero(m) && is_zero(n)),
            _ => a == b,
        },
        _ => false,
    }
}

/// Whether two values without parts are the same.
pub open spec fn same_leaf(a: value::Model, b: value::Model) -> bool {
    match (a, b) {
        (value::Model::Null, value::Model::Null) => true,
        (value::Model::Bool(m), value::Model::Bool(n)) => m == n,
        (value::Model::Number(m), value::Model::Number(n)) => same_number(m, n),
        (value::Model::Text(m), value::Model::Text(n)) => m == n,
        _ => false,
    }
}

/// The path of an entry.
pub open spec fn entry_path(path: Seq<char>, key: Seq<char>) -> Seq<char> {
    path + "."@ + key
}

/// The path of an item.
pub open spec fn item_path(path: Seq<char>, index: nat) -> Seq<char> {
    path + "["@ + number_text::decimal(index) + "]"@
}

/// The first entry that others do not have.
pub open spec fn extra_entry(
    actual: Seq<(Seq<char>, value::Model)>,
    expected: Seq<(Seq<char>, value::Model)>,
) -> Option<(Seq<char>, value::Model)>
    decreases actual.len(),
{
    if actual.len() == 0 {
        None
    } else {
        match extra_entry(actual.drop_last(), expected) {
            Some(found) => Some(found),
            None => if entries::find(expected, actual.last().0) is None {
                Some(actual.last())
            } else {
                None
            },
        }
    }
}

/// The first place at which a value differs from the expected one. The entries
/// and items that are expected come before those that are not.
pub open spec fn differs(
    expected: value::Model,
    actual: Option<value::Model>,
    path: Seq<char>,
) -> Option<DifferenceModel>
    decreases expected, 1nat,
{
    match (expected, actual) {
        (value::Model::Object(own), Some(value::Model::Object(other))) => match entries_differ(
            own,
            other,
            path,
        ) {
            Some(found) => Some(found),
            None => match extra_entry(other, own) {
                Some((key, m)) => Some(
                    DifferenceModel {
                        path: entry_path(path, key),
                        expected: SeenModel::Missing,
                        actual: seen(Some(m)),
                    },
                ),
                None => None,
            },
        },
        (value::Model::Array(own), Some(value::Model::Array(other))) => match items_differ(
            own,
            other,
            path,
        ) {
            Some(found) => Some(found),
            None => if own.len() != other.len() {
                Some(
                    DifferenceModel {
                        path,
                        expected: SeenModel::Array(own.len()),
                        actual: SeenModel::Array(other.len()),
                    },
                )
            } else {
                None
            },
        },
        (_, Some(m)) if same_leaf(expected, m) => None,
        _ => Some(
            DifferenceModel { path, expected: seen(Some(expected)), actual: seen(actual) },
        ),
    }
}

/// The first place at which expected entries differ.
pub open spec fn entries_differ(
    own: Seq<(Seq<char>, value::Model)>,
    other: Seq<(Seq<char>, value::Model)>,
    path: Seq<char>,
) -> Option<DifferenceModel>
    decreases own, 0nat,
{
    if own.len() == 0 {
        None
    } else {
        match entries_differ(own.drop_last(), other, path) {
            Some(found) => Some(found),
            None => differs(
                own.last().1,
                entries::find(other, own.last().0),
                entry_path(path, own.last().0),
            ),
        }
    }
}

/// The first place at which expected items differ.
pub open spec fn items_differ(
    own: Seq<value::Model>,
    other: Seq<value::Model>,
    path: Seq<char>,
) -> Option<DifferenceModel>
    decreases own, 0nat,
{
    if own.len() == 0 {
        None
    } else {
        match items_differ(own.drop_last(), other, path) {
            Some(found) => Some(found),
            None => differs(
                own.last(),
                if own.len() <= other.len() {
                    Some(other[own.len() - 1])
                } else {
                    None
                },
                item_path(path, (own.len() - 1) as nat),
            ),
        }
    }
}

/// The first place at which two documents differ, either of which may be
/// missing.
pub open spec fn difference(
    expected: Option<value::Model>,
    actual: Option<value::Model>,
    path: Seq<char>,
) -> Option<DifferenceModel> {
    match expected {
        Some(m) => differs(m, actual, path),
        None => Some(
            DifferenceModel { path, expected: SeenModel::Missing, actual: seen(actual) },
        ),
    }
}

proof fn lemma_entries_first(
    own: Seq<(Seq<char>, value::Model)>,
    n: nat,
    other: Seq<(Seq<char>, value::Model)>,
    path: Seq<char>,
)
    requires
        n <= own.len(),
        entries_differ(own.subrange(0, n as int), other, path) is Some,
    ensures
        entries_differ(own, other, path) == entries_differ(
            own.subrange(0, n as int),
            other,
            path,
        ),
    decreases own.len() - n,
{
    if n == own.len() {
        assert(own.subrange(0, n as int) =~= own);
    } else {
        assert(own.subrange(0, (n + 1) as int).drop_last() =~= own.subrange(0, n as int));
        lemma_entries_first(own, n + 1, other, path);
    }
}

proof fn lemma_items_first(
    own: Seq<value::Model>,
    n: nat,
    other: Seq<value::Model>,
    path: Seq<char>,
)
    requires
        n <= own.len(),
        items_differ(own.subrange(0, n as int), other, path) is Some,
    ensures
        items_differ(own, other, path) == items_differ(own.subrange(0, n as int), other, path),
    decreases own.len() - n,
{
    if n == own.len() {
        assert(own.subrange(0, n as int) =~= own);
    } else {
        assert(own.subrange(0, (n + 1) as int).drop_last() =~= own.subrange(0, n as int));
        lemma_items_first(own, n + 1, other, path);
    }
}

proof fn lemma_extra_first(
    actual: Seq<(Seq<char>, value::Model)>,
    n: nat,
    expected: Seq<(Seq<char>, value::Model)>,
)
    requires
        n <= actual.len(),
        extra_entry(actual.subrange(0, n as int), expected) is Some,
    ensures
        extra_entry(actual, expected) == extra_entry(actual.subrange(0, n as int), expected),
    decreases actual.len() - n,
{
    if n == actual.len() {
        assert(actual.subrange(0, n as int) =~= actual);
    } else {
        assert(actual.subrange(0, (n + 1) as int).drop_last() =~= actual.subrange(0, n as int));
        lemma_extra_first(actual, n + 1, expected);
    }
}

fn same_numbers(a: Number, b: Number) -> (result: bool)
    ensures
        result == same_number(a, b),
{
    match (a.integer, b.integer) {
        (Some(m), Some(n)) => m == n,
        (None, None) => match (a.double, b.double) {
            (Some(m), Some(n)) => m == n || ((m == 0 || m == 0x8000_0000_0000_0000) && (n == 0 || n
                == 0x8000_0000_0000_0000)),
            _ => a == b,
        },
        _ => false,
    }
}

fn same_leaves(a: &Value, b: &Value) -> (result: bool)
    ensures
        result == same_leaf(a@, b@),
{
    match (a, b) {
        (Value::Null, Value::Null) => true,
        (Value::Bool(m), Value::Bool(n)) => *m == *n,
        (Value::Number(m), Value::Number(n)) => same_numbers(*m, *n),
        (Value::Text(m), Value::Text(n)) => same_text(m.as_str(), n.as_str()),
        _ => false,
    }
}

fn new_entry_path(path: &str, key: &str) -> (result: String)
    ensures
        result@ == entry_path(path@, key@),
{
    let mut out: String = copy_text(path);
    push_text(&mut out, ".");
    push_text(&mut out, key);
    out
}

fn new_item_path(path: &str, index: usize) -> (result: String)
    ensures
        result@ == item_path(path@, index as nat),
{
    let mut out: String = copy_text(path);
    push_text(&mut out, "[");
    push_text(&mut out, decimal_text(index as u64).as_str());
    push_text(&mut out, "]");
    out
}

fn find_extra<'a>(actual: &'a Vec<(String, Value)>, expected: &Vec<(String, Value)>) -> (result:
    Option<&'a (String, Value)>)
    ensures
        match extra_entry(value::entry_models(actual@), value::entry_models(expected@)) {
            Some((key, m)) => result matches Some(r) && r.0@ == key && r.1@ == m,
            None => result is None,
        },
{
    let ghost all = value::entry_models(actual@);
    let ghost own = value::entry_models(expected@);
    proof {
        value::lemma_entry_models(actual@);
        assert(all.subrange(0, 0) =~= Seq::empty());
    }
    let mut i: usize = 0;
    while i < actual.len()
        invariant
            i <= actual@.len(),
            all == value::entry_models(actual@),
            own == value::entry_models(expected@),
            all.len() == actual@.len(),
            forall|k: int|
                0 <= k < all.len() ==> #[trigger] all[k] == (
                    actual@[k].0@,
                    value::model(actual@[k].1),
                ),
            extra_entry(all.subrange(0, i as int), own) is None,
        decreases actual@.len() - i,
    {
        proof {
            assert(all.subrange(0, i + 1).drop_last() =~= all.subrange(0, i as int));
            assert(all.subrange(0, i + 1).last() == all[i as int]);
        }
        if find_entry(expected, actual[i].0.as_str()).is_none() {
            proof {
                lemma_extra_first(all, (i + 1) as nat, own);
            }
            return Some(&actual[i]);
        }
        i = i + 1;
    }
    assert(all.subrange(0, i as int) =~= all);
    None
}

/// A difference, if there is one.
pub open spec fn optional_difference(found: Option<Difference>) -> Option<DifferenceModel> {
    match found {
        Some(found) => Some(found@),
        None => None,
    }
}

fn compare(expected: &Value, actual: Option<&Value>, path: &str) -> (result: Option<Difference>)
    ensures
        optional_difference(result) == differs(expected@, optional_model(actual), path@),
    decreases expected, 1nat,
{
    match (expected, actual) {
        (Value::Object(own), Some(Value::Object(other))) => {
            proof {
                assert(decreases_to!(expected => expected->Object_0));
            }
            if let Some(found) = compare_entries(own, other, path) {
                return Some(found);
            }
            match find_extra(other, own) {
                Some(entry) => Some(
                    Difference {
                        path: new_entry_path(path, entry.0.as_str()),
                        expected: Seen::Missing,
                        actual: look(Some(&entry.1)),
                    },
                ),
                None => None,
            }
        },
        (Value::Array(own), Some(Value::Array(other))) => {
            proof {
                assert(decreases_to!(expected => expected->Array_0));
                value::lemma_models(own@);
                value::lemma_models(other@);
            }
            if let Some(found) = compare_items(own, other, path) {
                return Some(found);
            }
            if own.len() != other.len() {
                return Some(
                    Difference {
                        path: copy_text(path),
                        expected: Seen::Array(own.len()),
                        actual: Seen::Array(other.len()),
                    },
                );
            }
            None
        },
        (_, Some(value)) => {
            if same_leaves(expected, value) {
                return None;
            }
            Some(
                Difference {
                    path: copy_text(path),
                    expected: look(Some(expected)),
                    actual: look(actual),
                },
            )
        },
        (_, None) => Some(
            Difference {
                path: copy_text(path),
                expected: look(Some(expected)),
                actual: look(actual),
            },
        ),
    }
}

#[verifier::loop_isolation(false)]
fn compare_entries(
    own: &Vec<(String, Value)>,
    other: &Vec<(String, Value)>,
    path: &str,
) -> (result: Option<Difference>)
    ensures
        optional_difference(result) == entries_differ(
            value::entry_models(own@),
            value::entry_models(other@),
            path@,
        ),
    decreases own, 0nat,
{
    let ghost all = value::entry_models(own@);
    let ghost others = value::entry_models(other@);
    proof {
        value::lemma_entry_models(own@);
        assert(all.subrange(0, 0) =~= Seq::empty());
    }
    let mut i: usize = 0;
    while i < own.len()
        invariant
            i <= own@.len(),
            entries_differ(all.subrange(0, i as int), others, path@) is None,
        decreases own@.len() - i,
    {
        proof {
            assert(decreases_to!(own => own@));
            assert(decreases_to!(own@ => own@[i as int]));
            assert(decreases_to!(own@[i as int] => own@[i as int].1));
            assert(all.subrange(0, i + 1).drop_last() =~= all.subrange(0, i as int));
            assert(all.subrange(0, i + 1).last() == all[i as int]);
        }
        let key: &str = own[i].0.as_str();
        let found: Option<&Value> = find_entry(other, key);
        if let Some(different) = compare(&own[i].1, found, new_entry_path(path, key).as_str()) {
            proof {
                lemma_entries_first(all, (i + 1) as nat, others, path@);
            }
            return Some(different);
        }
        i = i + 1;
    }
    assert(all.subrange(0, i as int) =~= all);
    None
}

#[verifier::loop_isolation(false)]
fn compare_items(own: &Vec<Value>, other: &Vec<Value>, path: &str) -> (result: Option<Difference>)
    ensures
        optional_difference(result) == items_differ(
            value::models(own@),
            value::models(other@),
            path@,
        ),
    decreases own, 0nat,
{
    let ghost all = value::models(own@);
    let ghost others = value::models(other@);
    proof {
        value::lemma_models(own@);
        value::lemma_models(other@);
        assert(all.subrange(0, 0) =~= Seq::empty());
    }
    let mut i: usize = 0;
    while i < own.len()
        invariant
            i <= own@.len(),
            items_differ(all.subrange(0, i as int), others, path@) is None,
        decreases own@.len() - i,
    {
        proof {
            assert(decreases_to!(own => own@));
            assert(decreases_to!(own@ => own@[i as int]));
            assert(all.subrange(0, i + 1).drop_last() =~= all.subrange(0, i as int));
            assert(all.subrange(0, i + 1).last() == all[i as int]);
        }
        let found: Option<&Value> = if i < other.len() {
            Some(&other[i])
        } else {
            None
        };
        if let Some(different) = compare(&own[i], found, new_item_path(path, i).as_str()) {
            proof {
                lemma_items_first(all, (i + 1) as nat, others, path@);
            }
            return Some(different);
        }
        i = i + 1;
    }
    assert(all.subrange(0, i as int) =~= all);
    None
}

/// Finds the first place at which two documents differ.
pub fn first_difference(expected: Option<&Value>, actual: Option<&Value>, path: &str) -> (result:
    Option<Difference>)
    ensures
        optional_difference(result) == difference(
            optional_model(expected),
            optional_model(actual),
            path@,
        ),
{
    match expected {
        Some(value) => compare(value, actual, path),
        None => Some(
            Difference { path: copy_text(path), expected: Seen::Missing, actual: look(actual) },
        ),
    }
}

/// A document does not differ from itself, as far as its keys are in order.
pub proof fn law_same_document(m: value::Model, path: Seq<char>)
    requires
        in_order(m),
    ensures
        differs(m, Some(m), path) is None,
    decreases m, 1nat,
{
    match m {
        value::Model::Object(own) => {
            assert(own.subrange(0, own.len() as int) =~= own);
            lemma_same_entries(own, own, path);
            lemma_no_extra(own, own);
        },
        value::Model::Array(own) => {
            assert(own.subrange(0, own.len() as int) =~= own);
            lemma_same_items(own, own, path);
        },
        _ => {},
    }
}

/// Whether two values agree: objects have the same keys with values that agree,
/// arrays the same length with items that agree, and other values are the same.
pub open spec fn agrees(a: value::Model, b: value::Model) -> bool
    decreases a,
{
    match (a, b) {
        (value::Model::Object(own), value::Model::Object(other)) => {
            &&& forall|i: int| 0 <= i < own.len() ==> agrees_with(#[trigger] own[i], other)
            &&& forall|j: int|
                0 <= j < other.len() ==> entries::find(own, (#[trigger] other[j]).0) is Some
        },
        (value::Model::Array(own), value::Model::Array(other)) => {
            &&& own.len() == other.len()
            &&& forall|i: int| 0 <= i < own.len() ==> agrees(#[trigger] own[i], other[i])
        },
        _ => same_leaf(a, b),
    }
}

/// Whether an entry agrees with the one that others have under its key.
pub open spec fn agrees_with(
    entry: (Seq<char>, value::Model),
    other: Seq<(Seq<char>, value::Model)>,
) -> bool
    decreases entry,
{
    match entries::find(other, entry.0) {
        Some(found) => agrees(entry.1, found),
        None => false,
    }
}

/// Where no difference is found, two documents agree.
pub proof fn law_no_difference(m: value::Model, n: value::Model, path: Seq<char>)
    requires
        differs(m, Some(n), path) is None,
    ensures
        agrees(m, n),
    decreases m, 1nat,
{
    match (m, n) {
        (value::Model::Object(own), value::Model::Object(other)) => {
            lemma_entries_agree(own, other, path);
            lemma_none_extra(other, own);
        },
        (value::Model::Array(own), value::Model::Array(other)) => {
            lemma_items_agree(own, other, path);
        },
        _ => {},
    }
}

proof fn lemma_entries_agree(
    own: Seq<(Seq<char>, value::Model)>,
    other: Seq<(Seq<char>, value::Model)>,
    path: Seq<char>,
)
    requires
        entries_differ(own, other, path) is None,
    ensures
        forall|i: int| 0 <= i < own.len() ==> agrees_with(#[trigger] own[i], other),
    decreases own, 0nat,
{
    if own.len() > 0 {
        let front = own.drop_last();
        let last = own.last();
        lemma_entries_agree(front, other, path);
        match entries::find(other, last.0) {
            Some(found) => {
                law_no_difference(last.1, found, entry_path(path, last.0));
            },
            None => {
                assert(differs(last.1, None, entry_path(path, last.0)) is Some);
            },
        }
        assert forall|i: int| 0 <= i < own.len() implies agrees_with(#[trigger] own[i], other) by {
            if i < front.len() {
                assert(front[i] == own[i]);
            }
        }
    }
}

proof fn lemma_items_agree(own: Seq<value::Model>, other: Seq<value::Model>, path: Seq<char>)
    requires
        items_differ(own, other, path) is None,
    ensures
        own.len() <= other.len(),
        forall|i: int| 0 <= i < own.len() ==> agrees(#[trigger] own[i], other[i]),
    decreases own, 0nat,
{
    if own.len() > 0 {
        let front = own.drop_last();
        let at = own.len() - 1;
        lemma_items_agree(front, other, path);
        if own.len() <= other.len() {
            law_no_difference(own.last(), other[at], item_path(path, at as nat));
        } else {
            assert(differs(own.last(), None, item_path(path, at as nat)) is Some);
        }
        assert forall|i: int| 0 <= i < own.len() implies agrees(#[trigger] own[i], other[i]) by {
            if i < front.len() {
                assert(front[i] == own[i]);
            }
        }
    }
}

proof fn lemma_none_extra(
    actual: Seq<(Seq<char>, value::Model)>,
    expected: Seq<(Seq<char>, value::Model)>,
)
    requires
        extra_entry(actual, expected) is None,
    ensures
        forall|j: int|
            0 <= j < actual.len() ==> entries::find(expected, (#[trigger] actual[j]).0) is Some,
    decreases actual.len(),
{
    if actual.len() > 0 {
        let front = actual.drop_last();
        lemma_none_extra(front, expected);
        assert forall|j: int| 0 <= j < actual.len() implies entries::find(
            expected,
            (#[trigger] actual[j]).0,
        ) is Some by {
            if j < front.len() {
                assert(front[j] == actual[j]);
            }
        }
    }
}

/// Whether the keys of all objects in a value are in order.
pub open spec fn in_order(m: value::Model) -> bool
    decreases m,
{
    match m {
        value::Model::Object(own) => entries::rising(own) && forall|i: int|
            0 <= i < own.len() ==> in_order((#[trigger] own[i]).1),
        value::Model::Array(own) => forall|i: int| 0 <= i < own.len() ==> in_order(#[trigger] own[i]),
        _ => true,
    }
}

proof fn lemma_same_entries(
    part: Seq<(Seq<char>, value::Model)>,
    own: Seq<(Seq<char>, value::Model)>,
    path: Seq<char>,
)
    requires
        entries::rising(own),
        part.len() <= own.len(),
        part == own.subrange(0, part.len() as int),
        forall|i: int| 0 <= i < own.len() ==> in_order((#[trigger] own[i]).1),
    ensures
        entries_differ(part, own, path) is None,
    decreases part, 0nat,
{
    if part.len() > 0 {
        assert(part.drop_last() =~= own.subrange(0, part.len() - 1));
        assert(decreases_to!(part => part.drop_last()));
        lemma_same_entries(part.drop_last(), own, path);
        let at = part.len() - 1;
        assert(part.last() == own[at]);
        entries::lemma_find_is(own, at);
        assert(decreases_to!(part => part[at]));
        assert(decreases_to!(part[at] => part[at].1));
        law_same_document(part.last().1, entry_path(path, part.last().0));
    }
}

proof fn lemma_no_extra(
    part: Seq<(Seq<char>, value::Model)>,
    own: Seq<(Seq<char>, value::Model)>,
)
    requires
        entries::rising(own),
        part.len() <= own.len(),
        part == own.subrange(0, part.len() as int),
    ensures
        extra_entry(part, own) is None,
    decreases part.len(),
{
    if part.len() > 0 {
        assert(part.drop_last() =~= own.subrange(0, part.len() - 1));
        lemma_no_extra(part.drop_last(), own);
        let at = part.len() - 1;
        assert(part.last() == own[at]);
        entries::lemma_find_is(own, at);
    }
}

proof fn lemma_same_items(part: Seq<value::Model>, own: Seq<value::Model>, path: Seq<char>)
    requires
        part.len() <= own.len(),
        part == own.subrange(0, part.len() as int),
        forall|i: int| 0 <= i < own.len() ==> in_order(#[trigger] own[i]),
    ensures
        items_differ(part, own, path) is None,
    decreases part, 0nat,
{
    if part.len() > 0 {
        assert(part.drop_last() =~= own.subrange(0, part.len() - 1));
        assert(decreases_to!(part => part.drop_last()));
        lemma_same_items(part.drop_last(), own, path);
        let at = part.len() - 1;
        assert(part.last() == own[at]);
        assert(decreases_to!(part => part[at]));
        law_same_document(part.last(), item_path(path, at as nat));
    }
}

} // verus!
