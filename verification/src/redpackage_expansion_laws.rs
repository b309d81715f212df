//! Documents show the values of a package with what their handles lead to.

use crate::entries;
use crate::redpackage_document;
use crate::redpackage_writer;
use crate::value;
use crate::value::Model;
use vstd::prelude::*;

verus! {

/// Whether a value of a document shows one of a package: it is the same but for
/// handles, in whose place stands what they lead to, or their identity.
pub open spec fn shows(x: Model, m: Model, flat: Seq<Model>, base: nat) -> bool
    decreases x,
{
    match m {
        Model::Array(items) => match x {
            Model::Array(shown) => shown.len() == items.len() && forall|i: int|
                0 <= i < shown.len() ==> shows(#[trigger] shown[i], items[i], flat, base),
            _ => false,
        },
        Model::Object(list) => if redpackage_document::is_handle(list) {
            match redpackage_document::target(list) {
                None => false,
                Some(index) => {
                    ||| x == redpackage_document::handle_again(base + index)
                    ||| match redpackage_writer::member_position(x, "Data"@) {
                        None => false,
                        Some(k) => {
                            proof {
                                redpackage_writer::lemma_member(x, "Data"@);
                            }
                            let data = x->Object_0[k as int].1;
                            index < flat.len() && x == redpackage_document::handle_with(
                                base + index,
                                data,
                            ) && shows(data, flat[index as int], flat, base)
                        },
                    }
                },
            }
        } else {
            match x {
                Model::Object(shown) => shown.len() == list.len() && forall|i: int|
                    0 <= i < shown.len() ==> (#[trigger] shown[i]).0 == list[i].0 && shows(
                        shown[i].1,
                        list[i].1,
                        flat,
                        base,
                    ),
                _ => false,
            }
        },
        _ => x == m,
    }
}

// ---------------------------------------------------------------------------
// Values without handles
// ---------------------------------------------------------------------------

/// Whether a value holds no handle.
pub open spec fn plain(m: Model) -> bool
    decreases m,
{
    match m {
        Model::Array(items) => forall|i: int| 0 <= i < items.len() ==> plain(#[trigger] items[i]),
        Model::Object(list) => !redpackage_document::is_handle(list) && forall|i: int|
            0 <= i < list.len() ==> plain(#[trigger] list[i].1),
        _ => true,
    }
}

/// Whether no entry holds a handle.
pub open spec fn plain_entries(list: Seq<(Seq<char>, Model)>) -> bool {
    forall|i: int| 0 <= i < list.len() ==> plain(#[trigger] list[i].1)
}

/// A value without handles is shown as it is.
pub proof fn lemma_plain(x: Model, m: Model, flat: Seq<Model>, base: nat)
    requires
        plain(m),
        shows(x, m, flat, base),
    ensures
        x == m,
    decreases m,
{
    match m {
        Model::Array(items) => {
            let shown = x->Array_0;
            assert forall|i: int| 0 <= i < items.len() implies #[trigger] shown[i] == items[i] by {
                lemma_plain(shown[i], items[i], flat, base);
            }
            assert(shown =~= items);
        },
        Model::Object(list) => {
            let shown = x->Object_0;
            assert forall|i: int| 0 <= i < list.len() implies #[trigger] shown[i] == list[i] by {
                lemma_plain(shown[i].1, list[i].1, flat, base);
            }
            assert(shown =~= list);
        },
        _ => {},
    }
}

/// Putting a plain value under a key keeps entries plain.
pub proof fn lemma_put_plain(list: Seq<(Seq<char>, Model)>, key: Seq<char>, m: Model)
    requires
        plain_entries(list),
        plain(m),
    ensures
        plain_entries(entries::put(list, key, m)),
{
    entries::lemma_place(list, key);
    let at = entries::place(list, key) as int;
    let result = entries::put(list, key, m);
    assert forall|i: int| 0 <= i < result.len() implies plain(#[trigger] result[i].1) by {
        if at < list.len() && list[at].0 == key {
            if i != at {
                assert(result[i] == list[i]);
            }
        } else if i < at {
            assert(result[i] == list[i]);
        } else if i > at {
            assert(result[i] == list[i - 1]);
        }
    }
}

/// Entries with another key are no handle.
pub proof fn lemma_no_handle(list: Seq<(Seq<char>, Model)>, key: Seq<char>)
    requires
        entries::find(list, key) is Some,
        key != "$package_handle"@,
    ensures
        !redpackage_document::is_handle(list),
{
    entries::lemma_find(list, key);
}

// ---------------------------------------------------------------------------
// Expansion
// ---------------------------------------------------------------------------

pub proof fn lemma_handle_with(id: nat, data: Model)
    ensures
        redpackage_writer::member_position(
            redpackage_document::handle_with(id, data),
            "Data"@,
        ) is Some,
        ({
            let x = redpackage_document::handle_with(id, data);
            let k = redpackage_writer::member_position(x, "Data"@)->0;
            k < x->Object_0.len() && x->Object_0[k as int].1 == data && value::member(x, "Data"@)
                == Some(data)
        }),
{
    let none = Seq::<(Seq<char>, Model)>::empty();
    let text = Model::Text(crate::number_text::decimal(id));
    let first = entries::put(none, "HandleId"@, text);
    entries::law_put_rising(none, "HandleId"@, text);
    entries::law_find_put(first, "Data"@, data);
    entries::lemma_index_of(entries::put(first, "Data"@, data), "Data"@);
}

/// What a value is expanded to shows it.
pub proof fn lemma_expanded(m: Model, flat: Seq<Model>, visited: Seq<bool>, base: nat, depth: nat)
    ensures
        redpackage_document::expanded(m, flat, visited, base, depth) matches Ok((x, _)) ==> shows(
            x,
            m,
            flat,
            base,
        ),
    decreases depth, m,
{
    match m {
        Model::Array(items) => {
            lemma_expanded_items(items, flat, visited, base, depth);
        },
        Model::Object(list) => {
            if redpackage_document::is_handle(list) {
                match redpackage_document::target(list) {
                    Some(index) => {
                        if base + index <= usize::MAX && !(index < visited.len()
                            && visited[index as int]) && index < flat.len() && index
                            < visited.len() && depth > 0 {
                            let next = visited.update(index as int, true);
                            lemma_expanded(
                                flat[index as int],
                                flat,
                                next,
                                base,
                                (depth - 1) as nat,
                            );
                            match redpackage_document::expanded(
                                flat[index as int],
                                flat,
                                next,
                                base,
                                (depth - 1) as nat,
                            ) {
                                Ok((data, _)) => {
                                    lemma_handle_with(base + index, data);
                                },
                                Err(_) => {},
                            }
                        }
                    },
                    None => {},
                }
            } else {
                lemma_expanded_entries(list, flat, visited, base, depth);
            }
        },
        _ => {},
    }
}

pub proof fn lemma_expanded_items(
    items: Seq<Model>,
    flat: Seq<Model>,
    visited: Seq<bool>,
    base: nat,
    depth: nat,
)
    ensures
        redpackage_document::expanded_items(items, flat, visited, base, depth) matches Ok(
            (shown, _),
        ) ==> shown.len() == items.len() && forall|i: int|
            0 <= i < shown.len() ==> shows(#[trigger] shown[i], items[i], flat, base),
    decreases depth, items,
{
    if items.len() > 0 {
        let front = items.drop_last();
        lemma_expanded_items(front, flat, visited, base, depth);
        match redpackage_document::expanded_items(front, flat, visited, base, depth) {
            Err(_) => {},
            Ok((out, after)) => {
                lemma_expanded(items.last(), flat, after, base, depth);
                match redpackage_document::expanded(items.last(), flat, after, base, depth) {
                    Err(_) => {},
                    Ok((x, _)) => {
                        let shown = out.push(x);
                        assert forall|i: int| 0 <= i < shown.len() implies shows(
                            #[trigger] shown[i],
                            items[i],
                            flat,
                            base,
                        ) by {
                            if i < out.len() {
                                assert(shown[i] == out[i] && items[i] == front[i]);
                            }
                        }
                    },
                }
            },
        }
    }
}

proof fn lemma_expanded_entries(
    list: Seq<(Seq<char>, Model)>,
    flat: Seq<Model>,
    visited: Seq<bool>,
    base: nat,
    depth: nat,
)
    ensures
        redpackage_document::expanded_entries(list, flat, visited, base, depth) matches Ok(
            (shown, _),
        ) ==> shown.len() == list.len() && forall|i: int|
            0 <= i < shown.len() ==> (#[trigger] shown[i]).0 == list[i].0 && shows(
                shown[i].1,
                list[i].1,
                flat,
                base,
            ),
    decreases depth, list,
{
    if list.len() > 0 {
        let front = list.drop_last();
        lemma_expanded_entries(front, flat, visited, base, depth);
        match redpackage_document::expanded_entries(front, flat, visited, base, depth) {
            Err(_) => {},
            Ok((out, after)) => {
                lemma_expanded(list.last().1, flat, after, base, depth);
                match redpackage_document::expanded(list.last().1, flat, after, base, depth) {
                    Err(_) => {},
                    Ok((x, _)) => {
                        let shown = out.push((list.last().0, x));
                        assert forall|i: int| 0 <= i < shown.len() implies (#[trigger]
                        shown[i]).0 == list[i].0 && shows(
                            shown[i].1,
                            list[i].1,
                            flat,
                            base,
                        ) by {
                            if i < out.len() {
                                assert(shown[i] == out[i] && list[i] == front[i]);
                            }
                        }
                    },
                }
            },
        }
    }
}

// ---------------------------------------------------------------------------
// Roots
// ---------------------------------------------------------------------------

/// Whether a value points to none of the roots.
pub open spec fn avoids(m: Model, roots: Seq<nat>) -> bool {
    forall|index: nat| #[trigger]
        redpackage_document::points_to(m, index) ==> !roots.contains(index)
}

proof fn lemma_any_item(items: Seq<Model>, i: int, index: nat)
    requires
        0 <= i < items.len(),
        redpackage_document::points_to(items[i], index),
    ensures
        redpackage_document::any_points_to(items, index),
    decreases items.len(),
{
    if i < items.len() - 1 {
        lemma_any_item(items.drop_last(), i, index);
    }
}

proof fn lemma_any_entry(list: Seq<(Seq<char>, Model)>, i: int, index: nat)
    requires
        0 <= i < list.len(),
        redpackage_document::points_to(list[i].1, index),
    ensures
        redpackage_document::any_entry_points_to(list, index),
    decreases list.len(),
{
    if i < list.len() - 1 {
        lemma_any_entry(list.drop_last(), i, index);
    }
}

/// What a value holds points to no root if the value does not.
pub proof fn lemma_avoids_item(items: Seq<Model>, i: int, roots: Seq<nat>)
    requires
        avoids(Model::Array(items), roots),
        0 <= i < items.len(),
    ensures
        avoids(items[i], roots),
{
    assert forall|index: nat| #[trigger]
        redpackage_document::points_to(items[i], index) implies !roots.contains(index) by {
        lemma_any_item(items, i, index);
        assert(redpackage_document::points_to(Model::Array(items), index));
    }
}

pub proof fn lemma_avoids_entry(list: Seq<(Seq<char>, Model)>, i: int, roots: Seq<nat>)
    requires
        avoids(Model::Object(list), roots),
        0 <= i < list.len(),
    ensures
        avoids(list[i].1, roots),
{
    assert forall|index: nat| #[trigger]
        redpackage_document::points_to(list[i].1, index) implies !roots.contains(index) by {
        lemma_any_entry(list, i, index);
        assert(redpackage_document::points_to(Model::Object(list), index));
    }
}

proof fn lemma_roots(flat: Seq<Model>, n: nat, index: nat)
    requires
        redpackage_document::any_points_to(flat, index),
    ensures
        !redpackage_document::roots(flat, n).contains(index),
    decreases n,
{
    if n > 0 {
        lemma_roots(flat, (n - 1) as nat, index);
        let before = redpackage_document::roots(flat, (n - 1) as nat);
        let roots = redpackage_document::roots(flat, n);
        if roots.contains(index) {
            let k = choose|k: int| 0 <= k < roots.len() && roots[k] == index;
            if k < before.len() {
                assert(before[k] == index);
                assert(before.contains(index));
            }
            assert(false);
        }
    }
}

/// No chunk points to a root.
pub proof fn lemma_chunk_avoids(flat: Seq<Model>, c: int)
    requires
        0 <= c < flat.len(),
    ensures
        avoids(flat[c], redpackage_document::roots(flat, flat.len())),
{
    let roots = redpackage_document::roots(flat, flat.len());
    assert forall|index: nat| #[trigger]
        redpackage_document::points_to(flat[c], index) implies !roots.contains(index) by {
        lemma_any_item(flat, c, index);
        lemma_roots(flat, flat.len(), index);
    }
}

/// Roots are chunks.
pub proof fn lemma_roots_bound(flat: Seq<Model>, n: nat)
    ensures
        forall|k: int|
            0 <= k < redpackage_document::roots(flat, n).len() ==> #[trigger]
                redpackage_document::roots(flat, n)[k] < n,
    decreases n,
{
    if n > 0 {
        lemma_roots_bound(flat, (n - 1) as nat);
        let before = redpackage_document::roots(flat, (n - 1) as nat);
        let roots = redpackage_document::roots(flat, n);
        assert forall|k: int| 0 <= k < roots.len() implies #[trigger] roots[k] < n by {
            if k < before.len() {
                assert(roots[k] == before[k]);
            }
        }
    }
}

} // verus!
