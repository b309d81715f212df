//! Entries under text keys, kept in the order of the keys.

use crate::text::{chars_of, same_text};
use vstd::prelude::*;

verus! {

/// The order of texts: by their first different character, a text before those
/// that it starts.
pub open spec fn text_less(a: Seq<char>, b: Seq<char>) -> bool
    decreases a.len(),
{
    if b.len() == 0 {
        false
    } else if a.len() == 0 {
        true
    } else if a[0] != b[0] {
        a[0] < b[0]
    } else {
        text_less(a.drop_first(), b.drop_first())
    }
}

/// Tells whether a text stands before another.
pub fn stands_before(a: &str, b: &str) -> (result: bool)
    ensures
        result == text_less(a@, b@),
{
    let left: Vec<char> = chars_of(a);
    let right: Vec<char> = chars_of(b);
    chars_before(&left, &right)
}

/// Tells whether a text stands before another.
pub fn chars_before(left: &[char], right: &[char]) -> (result: bool)
    ensures
        result == text_less(left@, right@),
{
    let mut i: usize = 0;
    assert(left@.subrange(0, left@.len() as int) =~= left@);
    assert(right@.subrange(0, right@.len() as int) =~= right@);
    while i < left.len() && i < right.len()
        invariant
            i <= left@.len(),
            i <= right@.len(),
            text_less(left@, right@) == text_less(
                left@.subrange(i as int, left@.len() as int),
                right@.subrange(i as int, right@.len() as int),
            ),
        decreases left@.len() - i,
    {
        if left[i] != right[i] {
            return left[i] < right[i];
        }
        proof {
            let l = left@.subrange(i as int, left@.len() as int);
            let r = right@.subrange(i as int, right@.len() as int);
            assert(l.drop_first() =~= left@.subrange(i + 1, left@.len() as int));
            assert(r.drop_first() =~= right@.subrange(i + 1, right@.len() as int));
        }
        i = i + 1;
    }
    i < right.len()
}

/// A text does not stand before itself.
pub proof fn lemma_irreflexive(a: Seq<char>)
    ensures
        !text_less(a, a),
    decreases a.len(),
{
    if a.len() > 0 {
        lemma_irreflexive(a.drop_first());
    }
}

/// The order of texts is transitive.
pub proof fn lemma_transitive(a: Seq<char>, b: Seq<char>, c: Seq<char>)
    requires
        text_less(a, b),
        text_less(b, c),
    ensures
        text_less(a, c),
    decreases a.len(),
{
    if a.len() > 0 && b.len() > 0 && c.len() > 0 && a[0] == b[0] && b[0] == c[0] {
        lemma_transitive(a.drop_first(), b.drop_first(), c.drop_first());
    }
}

/// Of two different texts one stands before the other.
pub proof fn lemma_total(a: Seq<char>, b: Seq<char>)
    ensures
        a == b || text_less(a, b) || text_less(b, a),
    decreases a.len(),
{
    if a.len() > 0 && b.len() > 0 && a[0] == b[0] {
        lemma_total(a.drop_first(), b.drop_first());
        if a.drop_first() == b.drop_first() {
            assert(a =~= seq![a[0]] + a.drop_first());
            assert(b =~= seq![b[0]] + b.drop_first());
        }
    } else if a.len() == 0 && b.len() == 0 {
        assert(a =~= b);
    }
}

/// Entries whose keys rise from each to the next.
pub open spec fn rising<V>(entries: Seq<(Seq<char>, V)>) -> bool {
    forall|i: int, j: int|
        0 <= i < j < entries.len() ==> #[trigger] text_less(entries[i].0, entries[j].0)
}

/// The number of leading entries whose keys stand before a key.
pub open spec fn place<V>(entries: Seq<(Seq<char>, V)>, key: Seq<char>) -> nat
    decreases entries.len(),
{
    if entries.len() == 0 || !text_less(entries[0].0, key) {
        0
    } else {
        1 + place(entries.drop_first(), key)
    }
}

/// The entries with a value set under a key.
pub open spec fn put<V>(entries: Seq<(Seq<char>, V)>, key: Seq<char>, value: V) -> Seq<
    (Seq<char>, V),
> {
    let at = place(entries, key) as int;
    if at < entries.len() && entries[at].0 == key {
        entries.update(at, (key, value))
    } else {
        entries.insert(at, (key, value))
    }
}

/// The value under a key.
pub open spec fn find<V>(entries: Seq<(Seq<char>, V)>, key: Seq<char>) -> Option<V>
    decreases entries.len(),
{
    if entries.len() == 0 {
        None
    } else if entries[0].0 == key {
        Some(entries[0].1)
    } else {
        find(entries.drop_first(), key)
    }
}

/// The first entry under a key.
pub open spec fn index_of<V>(entries: Seq<(Seq<char>, V)>, key: Seq<char>) -> Option<nat>
    decreases entries.len(),
{
    if entries.len() == 0 {
        None
    } else if entries[0].0 == key {
        Some(0)
    } else {
        match index_of(entries.drop_first(), key) {
            Some(i) => Some(i + 1),
            None => None,
        }
    }
}

/// The first entry under a key holds its value.
pub proof fn lemma_index_of<V>(entries: Seq<(Seq<char>, V)>, key: Seq<char>)
    ensures
        match index_of(entries, key) {
            Some(i) => i < entries.len() && entries[i as int].0 == key && find(entries, key)
                == Some(entries[i as int].1),
            None => find(entries, key) is None,
        },
    decreases entries.len(),
{
    if entries.len() > 0 && entries[0].0 != key {
        lemma_index_of(entries.drop_first(), key);
        match index_of(entries.drop_first(), key) {
            Some(i) => {
                assert(entries[i as int + 1] == entries.drop_first()[i as int]);
            },
            None => {},
        }
    }
}

/// What entries hold.
pub open spec fn keyed<V: View>(entries: Seq<(String, V)>) -> Seq<(Seq<char>, V::V)> {
    entries.map_values(|entry: (String, V)| (entry.0@, entry.1@))
}

/// What stands under the keys of names: nothing.
pub open spec fn name_keys(names: Seq<String>) -> Seq<(Seq<char>, ())> {
    names.map_values(|name: String| (name@, ()))
}

/// The first entry under a key.
pub fn position<V: View>(entries: &Vec<(String, V)>, key: &str) -> (result: Option<usize>)
    ensures
        match index_of(keyed(entries@), key@) {
            Some(i) => result matches Some(k) && k == i,
            None => result is None,
        },
        match result {
            Some(i) => i < entries@.len() && entries@[i as int].0@ == key@ && find(
                keyed(entries@),
                key@,
            ) == Some(entries@[i as int].1@),
            None => find(keyed(entries@), key@) is None,
        },
{
    let ghost all = keyed(entries@);
    proof {
        assert(all.subrange(0, all.len() as int) =~= all);
        lemma_index_of(all, key@);
    }
    let mut i: usize = 0;
    while i < entries.len()
        invariant
            i <= entries@.len(),
            all == keyed(entries@),
            match index_of(all.subrange(i as int, all.len() as int), key@) {
                Some(k) => index_of(all, key@) == Some(i as nat + k),
                None => index_of(all, key@) is None,
            },
            match index_of(all, key@) {
                Some(k) => k < all.len() && all[k as int].0 == key@ && find(all, key@) == Some(
                    all[k as int].1,
                ),
                None => find(all, key@) is None,
            },
        decreases entries@.len() - i,
    {
        let ghost rest = all.subrange(i as int, all.len() as int);
        assert(rest[0] == all[i as int]);
        if same_text(entries[i].0.as_str(), key) {
            return Some(i);
        }
        assert(rest.drop_first() =~= all.subrange(i + 1, all.len() as int));
        i = i + 1;
    }
    None
}

/// Sets the value under a key.
pub fn set_value<V: View>(entries: &mut Vec<(String, V)>, key: String, value: V)
    ensures
        keyed(final(entries)@) == put(keyed(old(entries)@), key@, value@),
{
    let ghost all = keyed(entries@);
    let mut i: usize = 0;
    let mut ahead: bool = true;
    while i < entries.len() && ahead
        invariant
            i <= entries@.len(),
            all == keyed(entries@),
            forall|k: int| 0 <= k < i ==> text_less(#[trigger] all[k].0, key@),
            !ahead ==> i < entries@.len() && !text_less(all[i as int].0, key@),
        decreases
            entries@.len() - i + (if ahead {
                1int
            } else {
                0int
            }),
    {
        assert(all[i as int].0 == entries@[i as int].0@);
        if stands_before(entries[i].0.as_str(), key.as_str()) {
            i = i + 1;
        } else {
            ahead = false;
        }
    }
    proof {
        lemma_place_is(all, key@, i as nat);
    }
    let ghost wanted = put(all, key@, value@);
    if i < entries.len() {
        assert(all[i as int].0 == entries@[i as int].0@);
        if same_text(entries[i].0.as_str(), key.as_str()) {
            entries.set(i, (key, value));
            assert(keyed(entries@) =~= wanted);
            return;
        }
    }
    entries.insert(i, (key, value));
    assert(keyed(entries@) =~= wanted);
}

/// Tells whether a name is among others.
pub fn has_name(names: &Vec<String>, name: &str) -> (result: bool)
    ensures
        result == (find(name_keys(names@), name@) is Some),
{
    let ghost all = name_keys(names@);
    assert(all.subrange(0, all.len() as int) =~= all);
    let mut i: usize = 0;
    while i < names.len()
        invariant
            i <= names@.len(),
            all == name_keys(names@),
            find(all, name@) == find(all.subrange(i as int, all.len() as int), name@),
        decreases names@.len() - i,
    {
        let ghost rest = all.subrange(i as int, all.len() as int);
        assert(rest[0] == all[i as int]);
        if same_text(names[i].as_str(), name) {
            return true;
        }
        assert(rest.drop_first() =~= all.subrange(i + 1, all.len() as int));
        i = i + 1;
    }
    false
}

/// Adds a name to others.
pub fn add_name(names: &mut Vec<String>, name: String)
    ensures
        name_keys(final(names)@) == put(name_keys(old(names)@), name@, ()),
{
    let ghost all = name_keys(names@);
    let mut i: usize = 0;
    let mut ahead: bool = true;
    while i < names.len() && ahead
        invariant
            i <= names@.len(),
            all == name_keys(names@),
            forall|k: int| 0 <= k < i ==> text_less(#[trigger] all[k].0, name@),
            !ahead ==> i < names@.len() && !text_less(all[i as int].0, name@),
        decreases
            names@.len() - i + (if ahead {
                1int
            } else {
                0int
            }),
    {
        assert(all[i as int].0 == names@[i as int]@);
        if stands_before(names[i].as_str(), name.as_str()) {
            i = i + 1;
        } else {
            ahead = false;
        }
    }
    proof {
        lemma_place_is(all, name@, i as nat);
    }
    let ghost wanted = put(all, name@, ());
    if i < names.len() {
        assert(all[i as int].0 == names@[i as int]@);
        if same_text(names[i].as_str(), name.as_str()) {
            assert(name_keys(names@) =~= wanted);
            return;
        }
    }
    names.insert(i, name);
    assert(name_keys(names@) =~= wanted);
}

/// Where the place of a key is.
pub proof fn lemma_place<V>(entries: Seq<(Seq<char>, V)>, key: Seq<char>)
    ensures
        place(entries, key) <= entries.len(),
        forall|i: int| 0 <= i < place(entries, key) ==> text_less(#[trigger] entries[i].0, key),
        place(entries, key) < entries.len() ==> !text_less(
            entries[place(entries, key) as int].0,
            key,
        ),
    decreases entries.len(),
{
    if entries.len() > 0 && text_less(entries[0].0, key) {
        lemma_place(entries.drop_first(), key);
        assert forall|i: int| 0 <= i < place(entries, key) implies text_less(
            #[trigger] entries[i].0,
            key,
        ) by {
            if i > 0 {
                assert(entries[i] == entries.drop_first()[i - 1]);
            }
        }
        if place(entries, key) < entries.len() {
            assert(entries[place(entries, key) as int] == entries.drop_first()[place(
                entries.drop_first(),
                key,
            ) as int]);
        }
    }
}

/// The place that bounds from both sides give.
pub proof fn lemma_place_is<V>(entries: Seq<(Seq<char>, V)>, key: Seq<char>, at: nat)
    requires
        at <= entries.len(),
        forall|i: int| 0 <= i < at ==> text_less(#[trigger] entries[i].0, key),
        at < entries.len() ==> !text_less(entries[at as int].0, key),
    ensures
        place(entries, key) == at,
{
    lemma_place(entries, key);
    let found = place(entries, key);
    if found < at {
        assert(text_less(entries[found as int].0, key));
    }
    if at < found {
        assert(text_less(entries[at as int].0, key));
    }
}

/// A value under a key stands in an entry, and the other way round.
pub proof fn lemma_find<V>(entries: Seq<(Seq<char>, V)>, key: Seq<char>)
    ensures
        match find(entries, key) {
            Some(value) => exists|i: int|
                0 <= i < entries.len() && #[trigger] entries[i] == (key, value),
            None => forall|i: int| 0 <= i < entries.len() ==> #[trigger] entries[i].0 != key,
        },
    decreases entries.len(),
{
    if entries.len() > 0 {
        let rest = entries.drop_first();
        if entries[0].0 == key {
            assert(entries[0] == (key, entries[0].1));
        } else {
            lemma_find(rest, key);
            match find(rest, key) {
                Some(value) => {
                    let i = choose|i: int| 0 <= i < rest.len() && #[trigger] rest[i] == (key, value);
                    assert(entries[i + 1] == (key, value));
                },
                None => {
                    assert forall|i: int| 0 <= i < entries.len() implies #[trigger] entries[i].0
                        != key by {
                        if i > 0 {
                            assert(entries[i] == rest[i - 1]);
                        }
                    }
                },
            }
        }
    }
}

/// In entries in order each key has its own value.
pub proof fn lemma_find_is<V>(entries: Seq<(Seq<char>, V)>, i: int)
    requires
        rising(entries),
        0 <= i < entries.len(),
    ensures
        find(entries, entries[i].0) == Some(entries[i].1),
{
    let key = entries[i].0;
    lemma_find(entries, key);
    match find(entries, key) {
        Some(value) => {
            let j = choose|j: int| 0 <= j < entries.len() && #[trigger] entries[j] == (key, value);
            lemma_irreflexive(key);
            if i < j {
                assert(text_less(entries[i].0, entries[j].0));
            }
            if j < i {
                assert(text_less(entries[j].0, entries[i].0));
            }
        },
        None => {},
    }
}

/// Setting a value keeps the entries in order.
pub proof fn law_put_rising<V>(entries: Seq<(Seq<char>, V)>, key: Seq<char>, value: V)
    requires
        rising(entries),
    ensures
        rising(put(entries, key, value)),
{
    lemma_place(entries, key);
    let at = place(entries, key) as int;
    let result = put(entries, key, value);
    if at < entries.len() {
        lemma_total(entries[at].0, key);
    }
    let inserted = !(at < entries.len() && entries[at].0 == key);
    assert forall|i: int, j: int| 0 <= i < j < result.len() implies #[trigger] text_less(
        result[i].0,
        result[j].0,
    ) by {
        if inserted {
            let a = if i < at { i } else { i - 1 };
            let b = if j < at { j } else { j - 1 };
            if i != at && j != at {
                assert(text_less(entries[a].0, entries[b].0));
            } else if i == at {
                if b > at {
                    assert(text_less(entries[at].0, entries[b].0));
                    lemma_transitive(key, entries[at].0, entries[b].0);
                }
            } else {
                assert(text_less(entries[a].0, key));
            }
        } else {
            assert(text_less(entries[i].0, entries[j].0));
        }
    }
}

/// A value that was set is found under its key.
pub proof fn law_find_put<V>(entries: Seq<(Seq<char>, V)>, key: Seq<char>, value: V)
    requires
        rising(entries),
    ensures
        find(put(entries, key, value), key) == Some(value),
{
    law_put_rising(entries, key, value);
    lemma_place(entries, key);
    let at = place(entries, key) as int;
    lemma_find_is(put(entries, key, value), at);
}

/// Setting a value leaves what stands under the other keys.
pub proof fn law_find_other<V>(
    entries: Seq<(Seq<char>, V)>,
    key: Seq<char>,
    value: V,
    other: Seq<char>,
)
    requires
        rising(entries),
        other != key,
    ensures
        find(put(entries, key, value), other) == find(entries, other),
{
    law_put_rising(entries, key, value);
    lemma_place(entries, key);
    let at = place(entries, key) as int;
    let result = put(entries, key, value);
    let inserted = !(at < entries.len() && entries[at].0 == key);
    lemma_find(entries, other);
    lemma_find(result, other);
    match find(entries, other) {
        Some(found) => {
            let i = choose|i: int| 0 <= i < entries.len() && #[trigger] entries[i] == (other, found);
            let j = if inserted && i >= at { i + 1 } else { i };
            assert(result[j] == (other, found));
            lemma_find_is(result, j);
        },
        None => {
            assert forall|j: int| 0 <= j < result.len() implies #[trigger] result[j].0 != other by {
                let i = if inserted && j > at { j - 1 } else { j };
                if j != at {
                    assert(result[j] == entries[i]);
                }
            }
            match find(result, other) {
                Some(found) => {
                    let j = choose|j: int|
                        0 <= j < result.len() && #[trigger] result[j] == (other, found);
                    assert(result[j].0 != other);
                },
                None => {},
            }
        },
    }
}

} // verus!
