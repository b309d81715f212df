//! What the fields of an object are.

use crate::entries;
use crate::value;
use vstd::prelude::*;

verus! {

/// A text as a value.
pub open spec fn said(text: Seq<char>) -> value::Model {
    value::Model::Text(text)
}

/// Whether entries are those of a list with each key once, and no others.
#[verifier::opaque]
pub open spec fn lists<V>(found: Seq<(Seq<char>, V)>, list: Seq<(Seq<char>, V)>) -> bool {
    &&& entries::rising(found)
    &&& found.len() == list.len()
    &&& forall|i: int, j: int| 0 <= i < j < list.len() ==> (#[trigger] list[i]).0 != (
    #[trigger] list[j]).0
    &&& forall|i: int|
        0 <= i < list.len() ==> entries::find(found, (#[trigger] list[i]).0) == Some(list[i].1)
}

/// Whether a value is the object with the fields of a list, and no others.
pub open spec fn has_fields(
    value: value::Model,
    list: Seq<(Seq<char>, value::Model)>,
) -> bool {
    match value {
        value::Model::Object(found) => lists(found, list),
        _ => false,
    }
}

/// A listed field is found.
pub proof fn lemma_field<V>(found: Seq<(Seq<char>, V)>, list: Seq<(Seq<char>, V)>, i: int)
    requires
        lists(found, list),
        0 <= i < list.len(),
    ensures
        entries::find(found, list[i].0) == Some(list[i].1),
{
    reveal(lists);
}

/// No entries list nothing.
pub proof fn lemma_none<V>()
    ensures
        lists(Seq::<(Seq<char>, V)>::empty(), Seq::empty()),
{
    reveal(lists);
}

/// Each listed key stands somewhere among the entries.
proof fn lemma_spots<V>(found: Seq<(Seq<char>, V)>, list: Seq<(Seq<char>, V)>, key: Seq<char>)
    requires
        lists(found, list),
        forall|i: int| 0 <= i < list.len() ==> (#[trigger] list[i]).0 != key,
    ensures
        entries::find(found, key) is None,
    decreases list.len(),
{
    reveal(lists);
    entries::lemma_find(found, key);
    if entries::find(found, key) is Some {
        let value = entries::find(found, key)->Some_0;
        let k = choose|k: int| 0 <= k < found.len() && #[trigger] found[k] == (key, value);
        let rest = found.remove(k);
        assert forall|i: int, j: int| 0 <= i < j < rest.len() implies #[trigger] entries::text_less(
            rest[i].0,
            rest[j].0,
        ) by {
            let a = if i < k { i } else { i + 1 };
            let b = if j < k { j } else { j + 1 };
            assert(entries::text_less(found[a].0, found[b].0));
        }
        lemma_listed(rest, list, found, key, k);
        lemma_too_many(rest, list);
    }
}

/// What is listed but for another key is still found without that key.
proof fn lemma_listed<V>(
    rest: Seq<(Seq<char>, V)>,
    list: Seq<(Seq<char>, V)>,
    found: Seq<(Seq<char>, V)>,
    key: Seq<char>,
    k: int,
)
    requires
        0 <= k < found.len(),
        found[k].0 == key,
        rest == found.remove(k),
        entries::rising(rest),
        forall|i: int|
            0 <= i < list.len() ==> entries::find(found, (#[trigger] list[i]).0) == Some(list[i].1),
        forall|i: int| 0 <= i < list.len() ==> (#[trigger] list[i]).0 != key,
    ensures
        forall|i: int|
            0 <= i < list.len() ==> entries::find(rest, (#[trigger] list[i]).0) == Some(list[i].1),
{
    assert forall|i: int| 0 <= i < list.len() implies entries::find(rest, (#[trigger] list[i]).0)
        == Some(list[i].1) by {
        entries::lemma_find(found, list[i].0);
        let value = list[i].1;
        let m = choose|m: int|
            0 <= m < found.len() && #[trigger] found[m] == (list[i].0, value);
        let n = if m < k { m } else { m - 1 };
        assert(rest[n] == found[m]);
        entries::lemma_find_is(rest, n);
    }
}

/// Entries hold no more keys than there are entries.
proof fn lemma_too_many<V>(found: Seq<(Seq<char>, V)>, list: Seq<(Seq<char>, V)>)
    requires
        entries::rising(found),
        forall|i: int, j: int| 0 <= i < j < list.len() ==> (#[trigger] list[i]).0 != (
        #[trigger] list[j]).0,
        forall|i: int|
            0 <= i < list.len() ==> entries::find(found, (#[trigger] list[i]).0) == Some(list[i].1),
    ensures
        list.len() <= found.len(),
    decreases found.len(),
{
    if list.len() > 0 {
        let last = list.last();
        let front = list.drop_last();
        assert(entries::find(found, list[list.len() - 1].0) is Some);
        entries::lemma_find(found, last.0);
        let k = choose|k: int| 0 <= k < found.len() && #[trigger] found[k] == (last.0, last.1);
        let rest = found.remove(k);
        assert forall|i: int, j: int| 0 <= i < j < rest.len() implies #[trigger] entries::text_less(
            rest[i].0,
            rest[j].0,
        ) by {
            let a = if i < k { i } else { i + 1 };
            let b = if j < k { j } else { j + 1 };
            assert(entries::text_less(found[a].0, found[b].0));
        }
        assert forall|i: int| 0 <= i < front.len() implies (#[trigger] front[i]).0 != last.0 by {
            assert(front[i] == list[i]);
            assert(list[i].0 != list[list.len() - 1].0);
        }
        assert forall|i: int|
            0 <= i < front.len() implies entries::find(found, (#[trigger] front[i]).0) == Some(
            front[i].1,
        ) by {
            assert(front[i] == list[i]);
        }
        lemma_listed(rest, front, found, last.0, k);
        assert forall|i: int, j: int| 0 <= i < j < front.len() implies (#[trigger] front[i]).0 != (
        #[trigger] front[j]).0 by {
            assert(list[i].0 != list[j].0);
        }
        lemma_too_many(rest, front);
    }
}

/// A new field is listed behind the others.
pub proof fn lemma_with<V>(
    found: Seq<(Seq<char>, V)>,
    list: Seq<(Seq<char>, V)>,
    key: Seq<char>,
    value: V,
)
    requires
        lists(found, list),
        forall|i: int| 0 <= i < list.len() ==> (#[trigger] list[i]).0 != key,
    ensures
        lists(entries::put(found, key, value), list.push((key, value))),
{
    reveal(lists);
    let after = entries::put(found, key, value);
    let more = list.push((key, value));
    assert forall|i: int, j: int| 0 <= i < j < more.len() implies (#[trigger] more[i]).0 != (
    #[trigger] more[j]).0 by {
        assert(list[i].0 != key);
        if j < list.len() {
            assert(list[i].0 != list[j].0);
        }
    }
    entries::law_put_rising(found, key, value);
    entries::law_find_put(found, key, value);
    lemma_spots(found, list, key);
    entries::lemma_find(found, key);
    entries::lemma_place(found, key);
    assert forall|i: int| 0 <= i < more.len() implies entries::find(after, (#[trigger] more[i]).0)
        == Some(more[i].1) by {
        if i < list.len() {
            assert(more[i] == list[i]);
            entries::law_find_other(found, key, value, list[i].0);
        }
    }
}

} // verus!
