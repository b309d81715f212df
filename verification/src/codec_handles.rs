//! Handles in decoded CR2W resources.

use crate::codec_reader;
use crate::codec_reader::{malformed, CodecError, Fault};
use crate::entries;
use crate::entries::position;
use crate::redpackage_document;
use crate::redpackage_document::{new_handle_again, new_handle_with};
use crate::schema;
use crate::schema::{among, ClassModel, RedClass};
use crate::text::same_text;
use crate::value;
use crate::value::{copy_text, find_entry, Value};
use vstd::prelude::*;

verus! {

/// A value that is nothing but a handle.
pub open spec fn is_handle(entries: Seq<(Seq<char>, value::Model)>) -> bool {
    entries.len() == 1 && entries[0].0 == "$handle"@
}

/// The export that a handle leads to.
pub open spec fn target(entries: Seq<(Seq<char>, value::Model)>) -> Option<nat> {
    match entries::find(entries, "$handle"@) {
        Some(value) => match value::integer_of(value) {
            Some(n) => if 0 <= n <= u64::MAX && n <= usize::MAX {
                Some(n as nat)
            } else {
                None
            },
            None => None,
        },
        None => None,
    }
}

/// What expanding values gives, and the exports that were met.
pub type Expanded<T> = Result<(T, Seq<bool>), Fault>;

/// A value with its handles replaced by what they lead to, each the first time
/// that it is met. No chain of handles is longer than `depth`.
pub open spec fn expanded(
    value: value::Model,
    exports: Seq<value::Model>,
    ids: Seq<Option<nat>>,
    visited: Seq<bool>,
    depth: nat,
) -> Expanded<value::Model>
    decreases depth, value,
{
    match value {
        value::Model::Array(items) => match expanded_items(items, exports, ids, visited, depth) {
            Ok((out, after)) => Ok((value::Model::Array(out), after)),
            Err(f) => Err(f),
        },
        value::Model::Object(entries) => if is_handle(entries) {
            match target(entries) {
                None => codec_reader::fault(0, "handle index"@),
                Some(index) => if index == 0xffff_ffff {
                    Ok((value::Model::Null, visited))
                } else if index >= ids.len() || ids[index as int] is None {
                    codec_reader::fault(0, "unreachable handle"@)
                } else if index < visited.len() && visited[index as int] {
                    Ok((redpackage_document::handle_again(ids[index as int]->0), visited))
                } else if index >= exports.len() || index >= visited.len() || depth == 0 {
                    codec_reader::fault(0, "handle export"@)
                } else {
                    match expanded(
                        exports[index as int],
                        exports,
                        ids,
                        visited.update(index as int, true),
                        (depth - 1) as nat,
                    ) {
                        Err(f) => Err(f),
                        Ok((data, after)) => Ok(
                            (redpackage_document::handle_with(ids[index as int]->0, data), after),
                        ),
                    }
                },
            }
        } else {
            match expanded_entries(entries, exports, ids, visited, depth) {
                Ok((out, after)) => Ok((value::Model::Object(out), after)),
                Err(f) => Err(f),
            }
        },
        _ => Ok((value, visited)),
    }
}

/// Values with their handles replaced, one after the other.
pub open spec fn expanded_items(
    items: Seq<value::Model>,
    exports: Seq<value::Model>,
    ids: Seq<Option<nat>>,
    visited: Seq<bool>,
    depth: nat,
) -> Expanded<Seq<value::Model>>
    decreases depth, items,
{
    if items.len() == 0 {
        Ok((Seq::empty(), visited))
    } else {
        match expanded_items(items.drop_last(), exports, ids, visited, depth) {
            Err(f) => Err(f),
            Ok((out, after)) => match expanded(items.last(), exports, ids, after, depth) {
                Err(f) => Err(f),
                Ok((m, last)) => Ok((out.push(m), last)),
            },
        }
    }
}

/// Entries with their handles replaced, one after the other.
pub open spec fn expanded_entries(
    entries: Seq<(Seq<char>, value::Model)>,
    exports: Seq<value::Model>,
    ids: Seq<Option<nat>>,
    visited: Seq<bool>,
    depth: nat,
) -> Expanded<Seq<(Seq<char>, value::Model)>>
    decreases depth, entries,
{
    if entries.len() == 0 {
        Ok((Seq::empty(), visited))
    } else {
        match expanded_entries(entries.drop_last(), exports, ids, visited, depth) {
            Err(f) => Err(f),
            Ok((out, after)) => match expanded(entries.last().1, exports, ids, after, depth) {
                Err(f) => Err(f),
                Ok((m, last)) => Ok((out.push((entries.last().0, m)), last)),
            },
        }
    }
}

/// Whether all that was visited stays so.
pub open spec fn only_grows(before: Seq<bool>, after: Seq<bool>) -> bool {
    before.len() == after.len() && forall|i: int|
        0 <= i < before.len() && #[trigger] before[i] ==> after[i]
}

/// Whether a value is a handle with an index.
pub open spec fn leads(value: value::Model) -> bool {
    match value {
        value::Model::Object(entries) => is_handle(entries) && target(entries) is Some,
        _ => false,
    }
}

/// The index of a handle.
pub open spec fn lead(value: value::Model) -> nat {
    target(value->Object_0)->0
}

/// An export that was written out stays marked, whatever follows, so that it is
/// written out once and referred to from then on.
pub proof fn law_written_once(
    value: value::Model,
    exports: Seq<value::Model>,
    ids: Seq<Option<nat>>,
    visited: Seq<bool>,
    depth: nat,
)
    requires
        expanded(value, exports, ids, visited, depth) is Ok,
    ensures
        only_grows(visited, expanded(value, exports, ids, visited, depth)->Ok_0.1),
        leads(value) && lead(value) != 0xffff_ffff ==> lead(value) < visited.len() && expanded(
            value,
            exports,
            ids,
            visited,
            depth,
        )->Ok_0.1[lead(value) as int],
    decreases depth, value,
{
    match value {
        value::Model::Array(items) => {
            lemma_items_grow(items, exports, ids, visited, depth);
        },
        value::Model::Object(entries) => {
            if is_handle(entries) {
                let index = target(entries)->0;
                if index != 0xffff_ffff && !(index < visited.len() && visited[index as int]) {
                    let marked = visited.update(index as int, true);
                    law_written_once(
                        exports[index as int],
                        exports,
                        ids,
                        marked,
                        (depth - 1) as nat,
                    );
                    assert(marked[index as int]);
                    assert(only_grows(visited, marked));
                }
            } else {
                lemma_entries_grow(entries, exports, ids, visited, depth);
            }
        },
        _ => {},
    }
}

proof fn lemma_items_grow(
    items: Seq<value::Model>,
    exports: Seq<value::Model>,
    ids: Seq<Option<nat>>,
    visited: Seq<bool>,
    depth: nat,
)
    requires
        expanded_items(items, exports, ids, visited, depth) is Ok,
    ensures
        only_grows(visited, expanded_items(items, exports, ids, visited, depth)->Ok_0.1),
    decreases depth, items,
{
    if items.len() > 0 {
        lemma_items_grow(items.drop_last(), exports, ids, visited, depth);
        let after = expanded_items(items.drop_last(), exports, ids, visited, depth)->Ok_0.1;
        law_written_once(items.last(), exports, ids, after, depth);
    }
}

proof fn lemma_entries_grow(
    entries: Seq<(Seq<char>, value::Model)>,
    exports: Seq<value::Model>,
    ids: Seq<Option<nat>>,
    visited: Seq<bool>,
    depth: nat,
)
    requires
        expanded_entries(entries, exports, ids, visited, depth) is Ok,
    ensures
        only_grows(visited, expanded_entries(entries, exports, ids, visited, depth)->Ok_0.1),
    decreases depth, entries,
{
    if entries.len() > 0 {
        lemma_entries_grow(entries.drop_last(), exports, ids, visited, depth);
        let after = expanded_entries(entries.drop_last(), exports, ids, visited, depth)->Ok_0.1;
        law_written_once(entries.last().1, exports, ids, after, depth);
    }
}

proof fn lemma_items_fail(
    items: Seq<value::Model>,
    n: int,
    exports: Seq<value::Model>,
    ids: Seq<Option<nat>>,
    visited: Seq<bool>,
    depth: nat,
)
    requires
        0 <= n <= items.len(),
        expanded_items(items.subrange(0, n), exports, ids, visited, depth) is Err,
    ensures
        expanded_items(items, exports, ids, visited, depth) == expanded_items(
            items.subrange(0, n),
            exports,
            ids,
            visited,
            depth,
        ),
    decreases items.len() - n,
{
    if n == items.len() {
        assert(items.subrange(0, n) =~= items);
    } else {
        assert(items.subrange(0, n + 1).drop_last() =~= items.subrange(0, n));
        lemma_items_fail(items, n + 1, exports, ids, visited, depth);
    }
}

proof fn lemma_entries_fail(
    entries: Seq<(Seq<char>, value::Model)>,
    n: int,
    exports: Seq<value::Model>,
    ids: Seq<Option<nat>>,
    visited: Seq<bool>,
    depth: nat,
)
    requires
        0 <= n <= entries.len(),
        expanded_entries(entries.subrange(0, n), exports, ids, visited, depth) is Err,
    ensures
        expanded_entries(entries, exports, ids, visited, depth) == expanded_entries(
            entries.subrange(0, n),
            exports,
            ids,
            visited,
            depth,
        ),
    decreases entries.len() - n,
{
    if n == entries.len() {
        assert(entries.subrange(0, n) =~= entries);
    } else {
        assert(entries.subrange(0, n + 1).drop_last() =~= entries.subrange(0, n));
        lemma_entries_fail(entries, n + 1, exports, ids, visited, depth);
    }
}

/// Identities as they are.
pub open spec fn id_numbers(ids: Seq<Option<usize>>) -> Seq<Option<nat>> {
    ids.map_values(
        |id: Option<usize>|
            match id {
                Some(n) => Some(n as nat),
                None => None,
            },
    )
}

fn handle_target(entries: &Vec<(String, Value)>) -> (result: Option<usize>)
    ensures
        match target(value::entry_models(entries@)) {
            Some(index) => result matches Some(r) && r == index,
            None => result is None,
        },
{
    match find_entry(entries, "$handle") {
        None => None,
        Some(value) => match value.as_integer() {
            None => None,
            Some(n) => if 0 <= n && n <= u64::MAX as i128 && n <= usize::MAX as i128 {
                Some(n as usize)
            } else {
                None
            },
        },
    }
}

fn names_handle(entries: &Vec<(String, Value)>) -> (result: bool)
    ensures
        result == is_handle(value::entry_models(entries@)),
{
    proof {
        value::lemma_entry_models(entries@);
    }
    if entries.len() != 1 {
        return false;
    }
    assert(value::entry_models(entries@)[0].0 == entries@[0].0@);
    same_text(entries[0].0.as_str(), "$handle")
}

#[verifier::loop_isolation(false)]
fn expand_within(
    value: &Value,
    exports: &Vec<Value>,
    ids: &Vec<Option<usize>>,
    visited: &mut Vec<bool>,
    depth: usize,
) -> (result: Result<Value, CodecError>)
    ensures
        match expanded(
            value@,
            value::models(exports@),
            id_numbers(ids@),
            old(visited)@,
            depth as nat,
        ) {
            Ok((m, after)) => result matches Ok(r) && r@ == m && final(visited)@ == after,
            Err(f) => result matches Err(e) && e@ == f,
        },
    decreases depth, value,
{
    let ghost targets = value::models(exports@);
    let ghost numbers = id_numbers(ids@);
    let ghost before = visited@;
    match value {
        Value::Array(items) => {
            let ghost all = value::models(items@);
            proof {
                value::lemma_models(items@);
                assert(all.subrange(0, 0) =~= Seq::empty());
            }
            let mut out: Vec<Value> = Vec::new();
            let mut i: usize = 0;
            while i < items.len()
                invariant
                    i <= items@.len(),
                    expanded_items(
                        all.subrange(0, i as int),
                        targets,
                        numbers,
                        before,
                        depth as nat,
                    ) == Ok::<(Seq<value::Model>, Seq<bool>), Fault>(
                        (value::models(out@), visited@),
                    ),
                decreases items@.len() - i,
            {
                proof {
                    assert(decreases_to!(value => value->Array_0));
                    assert(decreases_to!(items => items@));
                    assert(decreases_to!(items@ => items@[i as int]));
                    assert(all.subrange(0, i + 1).drop_last() =~= all.subrange(0, i as int));
                    assert(all.subrange(0, i + 1).last() == value::model(items@[i as int]));
                }
                match expand_within(&items[i], exports, ids, visited, depth) {
                    Ok(item) => {
                        proof {
                            value::lemma_models_push(out@, item);
                        }
                        out.push(item);
                    },
                    Err(error) => {
                        proof {
                            lemma_items_fail(all, i + 1, targets, numbers, before, depth as nat);
                        }
                        return Err(error);
                    },
                }
                i = i + 1;
            }
            assert(all.subrange(0, i as int) =~= all);
            Ok(Value::Array(out))
        },
        Value::Object(entries) => {
            let ghost all = value::entry_models(entries@);
            proof {
                value::lemma_entry_models(entries@);
                assert(all.subrange(0, 0) =~= Seq::empty());
            }
            if names_handle(entries) {
                let index: usize = match handle_target(entries) {
                    Some(index) => index,
                    None => return Err(malformed(0, "handle index")),
                };
                if index as u64 == 0xffff_ffff {
                    return Ok(Value::Null);
                }
                if index >= ids.len() {
                    return Err(malformed(0, "unreachable handle"));
                }
                assert(numbers[index as int] == match ids@[index as int] {
                    Some(n) => Some(n as nat),
                    None => None,
                });
                let id: usize = match ids[index] {
                    Some(id) => id,
                    None => return Err(malformed(0, "unreachable handle")),
                };
                if index < visited.len() && visited[index] {
                    return Ok(new_handle_again(id as u64));
                }
                proof {
                    value::lemma_models(exports@);
                }
                if index >= exports.len() || index >= visited.len() || depth == 0 {
                    return Err(malformed(0, "handle export"));
                }
                visited.set(index, true);
                return match expand_within(&exports[index], exports, ids, visited, depth - 1) {
                    Ok(data) => Ok(new_handle_with(id as u64, data)),
                    Err(error) => Err(error),
                };
            }
            let mut out: Vec<(String, Value)> = Vec::new();
            let mut i: usize = 0;
            while i < entries.len()
                invariant
                    i <= entries@.len(),
                    expanded_entries(
                        all.subrange(0, i as int),
                        targets,
                        numbers,
                        before,
                        depth as nat,
                    ) == Ok::<(Seq<(Seq<char>, value::Model)>, Seq<bool>), Fault>(
                        (value::entry_models(out@), visited@),
                    ),
                decreases entries@.len() - i,
            {
                proof {
                    assert(decreases_to!(value => value->Object_0));
                    assert(decreases_to!(entries => entries@));
                    assert(decreases_to!(entries@ => entries@[i as int]));
                    assert(decreases_to!(entries@[i as int] => entries@[i as int].1));
                    assert(all.subrange(0, i + 1).drop_last() =~= all.subrange(0, i as int));
                    assert(all.subrange(0, i + 1).last() == (
                        entries@[i as int].0@,
                        value::model(entries@[i as int].1),
                    ));
                }
                match expand_within(&entries[i].1, exports, ids, visited, depth) {
                    Ok(item) => {
                        let entry: (String, Value) = (copy_text(entries[i].0.as_str()), item);
                        proof {
                            value::lemma_entry_models_push(out@, entry);
                        }
                        out.push(entry);
                    },
                    Err(error) => {
                        proof {
                            lemma_entries_fail(
                                all,
                                i + 1,
                                targets,
                                numbers,
                                before,
                                depth as nat,
                            );
                        }
                        return Err(error);
                    },
                }
                i = i + 1;
            }
            assert(all.subrange(0, i as int) =~= all);
            Ok(Value::Object(out))
        },
        _ => Ok(value.copy()),
    }
}

/// Replaces the handles in a value by what they lead to, each the first time
/// that it is met; later it is only named.
pub fn expand_handles(
    value: &Value,
    exports: &Vec<Value>,
    ids: &Vec<Option<usize>>,
    visited: &mut Vec<bool>,
) -> (result: Result<Value, CodecError>)
    ensures
        match expanded(
            value@,
            value::models(exports@),
            id_numbers(ids@),
            old(visited)@,
            exports@.len(),
        ) {
            Ok((m, after)) => result matches Ok(r) && r@ == m && final(visited)@ == after,
            Err(f) => result matches Err(e) && e@ == f,
        },
{
    expand_within(value, exports, ids, visited, exports.len())
}

/// The names of the properties of a class and of those that it is derived from.
pub open spec fn chain_names(
    classes: Seq<(Seq<char>, ClassModel)>,
    class: Seq<char>,
    visited: Seq<Seq<char>>,
) -> Seq<Seq<char>>
    decreases schema::fresh(classes, visited),
{
    if visited.contains(class) {
        Seq::empty()
    } else {
        match entries::find(classes, class) {
            None => Seq::empty(),
            Some(found) => {
                proof {
                    schema::lemma_fresh(classes, visited, class);
                }
                keys(found.properties) + (match found.base {
                    Some(base) => chain_names(classes, base, visited.push(class)),
                    None => Seq::empty(),
                })
            },
        }
    }
}

/// The keys of entries.
pub open spec fn keys<V>(entries: Seq<(Seq<char>, V)>) -> Seq<Seq<char>> {
    entries.map_values(|entry: (Seq<char>, V)| entry.0)
}

/// Which entries of an object are walked through.
pub ghost enum Choice {
    All,
    Named(Seq<Seq<char>>),
    Unnamed(Seq<Seq<char>>),
}

/// Whether an entry is walked through.
pub open spec fn chosen(choice: Choice, key: Seq<char>) -> bool {
    match choice {
        Choice::All => true,
        Choice::Named(names) => names.contains(key),
        Choice::Unnamed(names) => key != "$type"@ && !names.contains(key),
    }
}

/// The identities that exports have, and how many do.
pub type Ids = Result<(Seq<Option<nat>>, nat), Fault>;

/// The type of an object.
pub open spec fn object_type(entries: Seq<(Seq<char>, value::Model)>) -> Option<Seq<char>> {
    match entries::find(entries, "$type"@) {
        Some(value) => value::text_of(value),
        None => None,
    }
}

/// The identities after a value was walked through: its handles get them in the
/// order in which they are met. Where the classes are known, the properties of
/// an object come before its other entries.
pub open spec fn assigned(
    value: value::Model,
    exports: Seq<value::Model>,
    classes: Option<Seq<(Seq<char>, ClassModel)>>,
    ids: Seq<Option<nat>>,
    next: nat,
    depth: nat,
) -> Ids
    decreases depth, value, 1nat,
{
    match value {
        value::Model::Array(items) => assigned_items(items, exports, classes, ids, next, depth),
        value::Model::Object(entries) => if is_handle(entries) {
            match target(entries) {
                None => codec_reader::fault(0, "handle index"@),
                Some(index) => if index == 0xffff_ffff || (index < ids.len() && ids[index as int]
                    is Some) {
                    Ok((ids, next))
                } else if index >= exports.len() || index >= ids.len() || depth == 0 || next
                    >= usize::MAX {
                    codec_reader::fault(0, "handle export"@)
                } else {
                    assigned(
                        exports[index as int],
                        exports,
                        classes,
                        ids.update(index as int, Some(next)),
                        next + 1,
                        (depth - 1) as nat,
                    )
                },
            }
        } else {
            match (classes, object_type(entries)) {
                (Some(list), Some(t)) => {
                    let names = chain_names(list, t, Seq::empty());
                    match assigned_entries(
                        entries,
                        Choice::Named(names),
                        exports,
                        classes,
                        ids,
                        next,
                        depth,
                    ) {
                        Err(f) => Err(f),
                        Ok((after, count)) => assigned_entries(
                            entries,
                            Choice::Unnamed(names),
                            exports,
                            classes,
                            after,
                            count,
                            depth,
                        ),
                    }
                },
                _ => assigned_entries(
                    entries,
                    Choice::All,
                    exports,
                    classes,
                    ids,
                    next,
                    depth,
                ),
            }
        },
        _ => Ok((ids, next)),
    }
}

/// The identities after values were walked through, one after the other.
pub open spec fn assigned_items(
    items: Seq<value::Model>,
    exports: Seq<value::Model>,
    classes: Option<Seq<(Seq<char>, ClassModel)>>,
    ids: Seq<Option<nat>>,
    next: nat,
    depth: nat,
) -> Ids
    decreases depth, items, 0nat,
{
    if items.len() == 0 {
        Ok((ids, next))
    } else {
        match assigned_items(items.drop_last(), exports, classes, ids, next, depth) {
            Err(f) => Err(f),
            Ok((after, count)) => assigned(items.last(), exports, classes, after, count, depth),
        }
    }
}

/// The identities after chosen entries were walked through, one after the other.
pub open spec fn assigned_entries(
    entries: Seq<(Seq<char>, value::Model)>,
    choice: Choice,
    exports: Seq<value::Model>,
    classes: Option<Seq<(Seq<char>, ClassModel)>>,
    ids: Seq<Option<nat>>,
    next: nat,
    depth: nat,
) -> Ids
    decreases depth, entries, 0nat,
{
    if entries.len() == 0 {
        Ok((ids, next))
    } else {
        match assigned_entries(entries.drop_last(), choice, exports, classes, ids, next, depth) {
            Err(f) => Err(f),
            Ok((after, count)) => if chosen(choice, entries.last().0) {
                assigned(entries.last().1, exports, classes, after, count, depth)
            } else {
                Ok((after, count))
            },
        }
    }
}

proof fn lemma_assigned_items_fail(
    items: Seq<value::Model>,
    n: int,
    exports: Seq<value::Model>,
    classes: Option<Seq<(Seq<char>, ClassModel)>>,
    ids: Seq<Option<nat>>,
    next: nat,
    depth: nat,
)
    requires
        0 <= n <= items.len(),
        assigned_items(items.subrange(0, n), exports, classes, ids, next, depth) is Err,
    ensures
        assigned_items(items, exports, classes, ids, next, depth) == assigned_items(
            items.subrange(0, n),
            exports,
            classes,
            ids,
            next,
            depth,
        ),
    decreases items.len() - n,
{
    if n == items.len() {
        assert(items.subrange(0, n) =~= items);
    } else {
        assert(items.subrange(0, n + 1).drop_last() =~= items.subrange(0, n));
        lemma_assigned_items_fail(items, n + 1, exports, classes, ids, next, depth);
    }
}

proof fn lemma_assigned_entries_fail(
    entries: Seq<(Seq<char>, value::Model)>,
    n: int,
    choice: Choice,
    exports: Seq<value::Model>,
    classes: Option<Seq<(Seq<char>, ClassModel)>>,
    ids: Seq<Option<nat>>,
    next: nat,
    depth: nat,
)
    requires
        0 <= n <= entries.len(),
        assigned_entries(entries.subrange(0, n), choice, exports, classes, ids, next, depth) is Err,
    ensures
        assigned_entries(entries, choice, exports, classes, ids, next, depth) == assigned_entries(
            entries.subrange(0, n),
            choice,
            exports,
            classes,
            ids,
            next,
            depth,
        ),
    decreases entries.len() - n,
{
    if n == entries.len() {
        assert(entries.subrange(0, n) =~= entries);
    } else {
        assert(entries.subrange(0, n + 1).drop_last() =~= entries.subrange(0, n));
        lemma_assigned_entries_fail(entries, n + 1, choice, exports, classes, ids, next, depth);
    }
}

/// Classes, if they are known.
pub open spec fn class_models(classes: Option<&Vec<(String, RedClass)>>) -> Option<
    Seq<(Seq<char>, ClassModel)>,
> {
    match classes {
        Some(list) => Some(entries::keyed(list@)),
        None => None,
    }
}

fn list_chain_names(classes: &Vec<(String, RedClass)>, class: &str) -> (result: Vec<String>)
    ensures
        schema::texts(result@) == chain_names(entries::keyed(classes@), class@, Seq::empty()),
{
    let ghost all = entries::keyed(classes@);
    let ghost wanted = chain_names(all, class@, Seq::empty());
    let mut names: Vec<String> = Vec::new();
    let mut visited: Vec<String> = Vec::new();
    let mut pending: Option<String> = Some(copy_text(class));
    assert(schema::texts(visited@) =~= Seq::empty());
    assert(schema::texts(names@) + wanted =~= wanted);
    while pending.is_some()
        invariant
            all == entries::keyed(classes@),
            match pending {
                Some(current) => wanted == schema::texts(names@) + chain_names(
                    all,
                    current@,
                    schema::texts(visited@),
                ),
                None => wanted == schema::texts(names@),
            },
        decreases
            schema::fresh(all, schema::texts(visited@)) + (if pending is Some {
                1nat
            } else {
                0nat
            }),
    {
        let current: String = match pending {
            Some(current) => current,
            None => String::new(),
        };
        pending = None;
        if !among(&visited, current.as_str()) {
            match position(classes, current.as_str()) {
                None => {
                    assert(schema::texts(names@) + Seq::empty() =~= schema::texts(names@));
                },
                Some(at) => {
                    let found: &RedClass = &classes[at].1;
                    proof {
                        schema::lemma_fresh(all, schema::texts(visited@), current@);
                        assert(schema::texts(visited@.push(current)) =~= schema::texts(
                            visited@,
                        ).push(current@));
                    }
                    let ghost held = schema::texts(names@);
                    let ghost own = keys(found@.properties);
                    let mut i: usize = 0;
                    assert(held + own.subrange(0, 0) =~= held);
                    while i < found.properties.len()
                        invariant
                            i <= found.properties@.len(),
                            own == keys(entries::keyed(found.properties@)),
                            schema::texts(names@) == held + own.subrange(0, i as int),
                        decreases found.properties@.len() - i,
                    {
                        let copy: String = copy_text(found.properties[i].0.as_str());
                        proof {
                            assert(own[i as int] == copy@);
                            assert(schema::texts(names@.push(copy)) =~= schema::texts(names@).push(
                                copy@,
                            ));
                            assert(own.subrange(0, i + 1) =~= own.subrange(0, i as int).push(
                                own[i as int],
                            ));
                            assert(held + own.subrange(0, i + 1) =~= (held + own.subrange(
                                0,
                                i as int,
                            )).push(own[i as int]));
                        }
                        names.push(copy);
                        i = i + 1;
                    }
                    assert(own.subrange(0, i as int) =~= own);
                    if let Some(base) = &found.base {
                        pending = Some(copy_text(base.as_str()));
                    }
                    proof {
                        let rest = match found@.base {
                            Some(base) => chain_names(
                                all,
                                base,
                                schema::texts(visited@).push(current@),
                            ),
                            None => Seq::empty(),
                        };
                        assert(held + (own + rest) =~= (held + own) + rest);
                        assert((held + own) + Seq::<Seq<char>>::empty() =~= held + own);
                    }
                    visited.push(current);
                },
            }
        } else {
            assert(schema::texts(names@) + Seq::empty() =~= schema::texts(names@));
        }
    }
    names
}

/// Which entries of an object are walked through.
#[derive(Clone, Copy)]
enum Walk<'n> {
    All,
    Named(&'n Vec<String>),
    Unnamed(&'n Vec<String>),
}

impl<'n> View for Walk<'n> {
    type V = Choice;

    closed spec fn view(&self) -> Choice {
        match self {
            Walk::All => Choice::All,
            Walk::Named(names) => Choice::Named(schema::texts(names@)),
            Walk::Unnamed(names) => Choice::Unnamed(schema::texts(names@)),
        }
    }
}

fn walks(choice: &Walk<'_>, key: &str) -> (result: bool)
    ensures
        result == chosen(choice@, key@),
{
    match choice {
        Walk::All => true,
        Walk::Named(names) => among(names, key),
        Walk::Unnamed(names) => !same_text(key, "$type") && !among(names, key),
    }
}

#[verifier::loop_isolation(false)]
fn assign_items(
    items: &Vec<Value>,
    exports: &Vec<Value>,
    classes: Option<&Vec<(String, RedClass)>>,
    ids: &mut Vec<Option<usize>>,
    next: &mut usize,
    depth: usize,
) -> (result: Result<(), CodecError>)
    ensures
        match assigned_items(
            value::models(items@),
            value::models(exports@),
            class_models(classes),
            id_numbers(old(ids)@),
            *old(next) as nat,
            depth as nat,
        ) {
            Ok((after, count)) => result is Ok && id_numbers(final(ids)@) == after && *final(next)
                == count,
            Err(f) => result matches Err(e) && e@ == f,
        },
    decreases depth, items, 0nat,
{
    let ghost all = value::models(items@);
    let ghost targets = value::models(exports@);
    let ghost list = class_models(classes);
    let ghost before = id_numbers(ids@);
    let ghost first = *next as nat;
    proof {
        value::lemma_models(items@);
        assert(all.subrange(0, 0) =~= Seq::empty());
    }
    let mut i: usize = 0;
    while i < items.len()
        invariant
            i <= items@.len(),
            assigned_items(
                all.subrange(0, i as int),
                targets,
                list,
                before,
                first,
                depth as nat,
            ) == Ok::<(Seq<Option<nat>>, nat), Fault>((id_numbers(ids@), *next as nat)),
        decreases items@.len() - i,
    {
        proof {
            assert(decreases_to!(items => items@));
            assert(decreases_to!(items@ => items@[i as int]));
            assert(all.subrange(0, i + 1).drop_last() =~= all.subrange(0, i as int));
            assert(all.subrange(0, i + 1).last() == value::model(items@[i as int]));
        }
        match assign(&items[i], exports, classes, ids, next, depth) {
            Ok(_) => {},
            Err(error) => {
                proof {
                    lemma_assigned_items_fail(
                        all,
                        i + 1,
                        targets,
                        list,
                        before,
                        first,
                        depth as nat,
                    );
                }
                return Err(error);
            },
        }
        i = i + 1;
    }
    assert(all.subrange(0, i as int) =~= all);
    Ok(())
}

#[verifier::loop_isolation(false)]
fn assign_entries(
    entries: &Vec<(String, Value)>,
    choice: Walk<'_>,
    exports: &Vec<Value>,
    classes: Option<&Vec<(String, RedClass)>>,
    ids: &mut Vec<Option<usize>>,
    next: &mut usize,
    depth: usize,
) -> (result: Result<(), CodecError>)
    ensures
        match assigned_entries(
            value::entry_models(entries@),
            choice@,
            value::models(exports@),
            class_models(classes),
            id_numbers(old(ids)@),
            *old(next) as nat,
            depth as nat,
        ) {
            Ok((after, count)) => result is Ok && id_numbers(final(ids)@) == after && *final(next)
                == count,
            Err(f) => result matches Err(e) && e@ == f,
        },
    decreases depth, entries, 0nat,
{
    let ghost all = value::entry_models(entries@);
    let ghost targets = value::models(exports@);
    let ghost list = class_models(classes);
    let ghost before = id_numbers(ids@);
    let ghost first = *next as nat;
    proof {
        value::lemma_entry_models(entries@);
        assert(all.subrange(0, 0) =~= Seq::empty());
    }
    let mut i: usize = 0;
    while i < entries.len()
        invariant
            i <= entries@.len(),
            assigned_entries(
                all.subrange(0, i as int),
                choice@,
                targets,
                list,
                before,
                first,
                depth as nat,
            ) == Ok::<(Seq<Option<nat>>, nat), Fault>((id_numbers(ids@), *next as nat)),
        decreases entries@.len() - i,
    {
        proof {
            assert(decreases_to!(entries => entries@));
            assert(decreases_to!(entries@ => entries@[i as int]));
            assert(decreases_to!(entries@[i as int] => entries@[i as int].1));
            assert(all.subrange(0, i + 1).drop_last() =~= all.subrange(0, i as int));
            assert(all.subrange(0, i + 1).last() == (
                entries@[i as int].0@,
                value::model(entries@[i as int].1),
            ));
        }
        if walks(&choice, entries[i].0.as_str()) {
            match assign(&entries[i].1, exports, classes, ids, next, depth) {
                Ok(_) => {},
                Err(error) => {
                    proof {
                        lemma_assigned_entries_fail(
                            all,
                            i + 1,
                            choice@,
                            targets,
                            list,
                            before,
                            first,
                            depth as nat,
                        );
                    }
                    return Err(error);
                },
            }
        }
        i = i + 1;
    }
    assert(all.subrange(0, i as int) =~= all);
    Ok(())
}

fn assign(
    value: &Value,
    exports: &Vec<Value>,
    classes: Option<&Vec<(String, RedClass)>>,
    ids: &mut Vec<Option<usize>>,
    next: &mut usize,
    depth: usize,
) -> (result: Result<(), CodecError>)
    ensures
        match assigned(
            value@,
            value::models(exports@),
            class_models(classes),
            id_numbers(old(ids)@),
            *old(next) as nat,
            depth as nat,
        ) {
            Ok((after, count)) => result is Ok && id_numbers(final(ids)@) == after && *final(next)
                == count,
            Err(f) => result matches Err(e) && e@ == f,
        },
    decreases depth, value, 1nat,
{
    match value {
        Value::Array(items) => {
            proof {
                assert(decreases_to!(value => value->Array_0));
            }
            assign_items(items, exports, classes, ids, next, depth)
        },
        Value::Object(entries) => {
            proof {
                assert(decreases_to!(value => value->Object_0));
            }
            if names_handle(entries) {
                let index: usize = match handle_target(entries) {
                    Some(index) => index,
                    None => return Err(malformed(0, "handle index")),
                };
                if index as u64 == 0xffff_ffff {
                    return Ok(());
                }
                if index < ids.len() {
                    assert(id_numbers(ids@)[index as int] == match ids@[index as int] {
                        Some(n) => Some(n as nat),
                        None => None,
                    });
                    if ids[index].is_some() {
                        return Ok(());
                    }
                }
                proof {
                    value::lemma_models(exports@);
                }
                if index >= exports.len() || index >= ids.len() || depth == 0 || *next
                    == usize::MAX {
                    return Err(malformed(0, "handle export"));
                }
                let id: usize = *next;
                let ghost before = id_numbers(ids@);
                ids.set(index, Some(id));
                assert(id_numbers(ids@) =~= before.update(index as int, Some(id as nat)));
                *next = id + 1;
                return assign(&exports[index], exports, classes, ids, next, depth - 1);
            }
            let t: Option<&str> = match find_entry(entries, "$type") {
                Some(value) => value.as_text(),
                None => None,
            };
            if let Some(list) = classes {
                if let Some(t) = t {
                    let names: Vec<String> = list_chain_names(list, t);
                    match assign_entries(
                        entries,
                        Walk::Named(&names),
                        exports,
                        classes,
                        ids,
                        next,
                        depth,
                    ) {
                        Ok(_) => {},
                        Err(error) => return Err(error),
                    }
                    return assign_entries(
                        entries,
                        Walk::Unnamed(&names),
                        exports,
                        classes,
                        ids,
                        next,
                        depth,
                    );
                }
            }
            assign_entries(entries, Walk::All, exports, classes, ids, next, depth)
        },
        _ => Ok(()),
    }
}

/// The values that are walked through for identities: the first export, and
/// those of embedded files.
pub open spec fn walked(exports: Seq<value::Model>, embedded: Seq<nat>, n: nat) -> Seq<value::Model>
    decreases n,
{
    if n == 0 {
        seq![exports[0]]
    } else {
        walked(exports, embedded, (n - 1) as nat).push(exports[embedded[n - 1] as int])
    }
}

/// The identities of the exports that handles lead to, from the first export
/// and those of embedded files on.
pub open spec fn handle_ids(
    exports: Seq<value::Model>,
    embedded: Seq<nat>,
    classes: Option<Seq<(Seq<char>, ClassModel)>>,
) -> Result<Seq<Option<nat>>, Fault> {
    if exports.len() == 0 {
        codec_reader::fault(0, "root export"@)
    } else if exists|i: int| 0 <= i < embedded.len() && embedded[i] >= exports.len() {
        codec_reader::fault(0, "embedded chunk"@)
    } else {
        match assigned_items(
            walked(exports, embedded, embedded.len()),
            exports,
            classes,
            Seq::new(exports.len(), |i: int| None),
            0,
            exports.len(),
        ) {
            Err(f) => Err(f),
            Ok((ids, _)) => Ok(ids),
        }
    }
}

/// Numbers as they are.
pub open spec fn chunk_indices(list: Seq<usize>) -> Seq<nat> {
    list.map_values(|n: usize| n as nat)
}

/// Gives identities to the exports that handles lead to, in the order in which
/// they are met from the first export and those of embedded files on.
#[verifier::loop_isolation(false)]
pub fn reachable_handle_ids(
    exports: &Vec<Value>,
    embedded: &Vec<usize>,
    classes: Option<&Vec<(String, RedClass)>>,
) -> (result: Result<Vec<Option<usize>>, CodecError>)
    ensures
        match handle_ids(
            value::models(exports@),
            chunk_indices(embedded@),
            class_models(classes),
        ) {
            Ok(ids) => result matches Ok(r) && id_numbers(r@) == ids,
            Err(f) => result matches Err(e) && e@ == f,
        },
{
    let ghost all = value::models(exports@);
    let ghost places = chunk_indices(embedded@);
    let ghost list = class_models(classes);
    proof {
        value::lemma_models(exports@);
    }
    if exports.len() == 0 {
        return Err(malformed(0, "root export"));
    }
    let mut k: usize = 0;
    while k < embedded.len()
        invariant
            k <= embedded@.len(),
            forall|i: int| 0 <= i < k ==> #[trigger] places[i] < exports@.len(),
        decreases embedded@.len() - k,
    {
        assert(places[k as int] == embedded@[k as int] as nat);
        if embedded[k] >= exports.len() {
            return Err(malformed(0, "embedded chunk"));
        }
        k = k + 1;
    }
    let mut ids: Vec<Option<usize>> = Vec::new();
    let ghost none = Seq::new(exports@.len(), |i: int| None::<nat>);
    let mut n: usize = 0;
    while n < exports.len()
        invariant
            n <= exports@.len(),
            ids@.len() == n,
            forall|i: int| 0 <= i < n ==> #[trigger] ids@[i] is None,
        decreases exports@.len() - n,
    {
        ids.push(None);
        n = n + 1;
    }
    assert(id_numbers(ids@) =~= none);
    let mut next: usize = 0;
    let ghost steps = walked(all, places, embedded@.len());
    proof {
        lemma_walked(all, places, embedded@.len());
        assert(steps.subrange(0, 1) =~= seq![all[0]]);
        assert(seq![all[0]].drop_last() =~= Seq::empty());
    }
    assert(assigned_items(Seq::empty(), all, list, none, 0, all.len()) == Ok::<
        (Seq<Option<nat>>, nat),
        Fault,
    >((none, 0)));
    assert(seq![all[0]].last() == all[0]);
    assert(assigned_items(seq![all[0]], all, list, none, 0, all.len()) == assigned(
        all[0],
        all,
        list,
        none,
        0,
        all.len(),
    ));
    match assign(&exports[0], exports, classes, &mut ids, &mut next, exports.len()) {
        Ok(_) => {},
        Err(error) => {
            proof {
                lemma_assigned_items_fail(steps, 1, all, list, none, 0, all.len());
            }
            return Err(error);
        },
    }
    let mut i: usize = 0;
    while i < embedded.len()
        invariant
            i <= embedded@.len(),
            assigned_items(steps.subrange(0, i + 1), all, list, none, 0, all.len()) == Ok::<
                (Seq<Option<nat>>, nat),
                Fault,
            >((id_numbers(ids@), next as nat)),
        decreases embedded@.len() - i,
    {
        let at: usize = embedded[i];
        proof {
            assert(places[i as int] == at as nat);
            assert(steps.subrange(0, i + 2).drop_last() =~= steps.subrange(0, i + 1));
            assert(steps[i + 1] == all[at as int]);
        }
        match assign(&exports[at], exports, classes, &mut ids, &mut next, exports.len()) {
            Ok(_) => {},
            Err(error) => {
                proof {
                    lemma_assigned_items_fail(steps, i + 2, all, list, none, 0, all.len());
                }
                return Err(error);
            },
        }
        i = i + 1;
    }
    assert(steps.subrange(0, i + 1) =~= steps);
    Ok(ids)
}

proof fn lemma_walked(exports: Seq<value::Model>, embedded: Seq<nat>, n: nat)
    requires
        n <= embedded.len(),
    ensures
        walked(exports, embedded, n).len() == n + 1,
        walked(exports, embedded, n)[0] == exports[0],
        forall|i: int|
            0 <= i < n ==> #[trigger] walked(exports, embedded, n)[i + 1]
                == exports[embedded[i] as int],
    decreases n,
{
    if n > 0 {
        lemma_walked(exports, embedded, (n - 1) as nat);
        let before = walked(exports, embedded, (n - 1) as nat);
        assert forall|i: int| 0 <= i < n implies #[trigger] walked(exports, embedded, n)[i + 1]
            == exports[embedded[i] as int] by {
            if i < n - 1 {
                assert(before[i + 1] == exports[embedded[i] as int]);
            }
        }
    }
}

} // verus!
