//! Whole RED packages as documents.

use crate::entries;
use crate::number_text;
use crate::number_text::decimal_text;
use crate::redpackage;
use crate::redpackage::{
    byte, i16_at, malformed, parse_layout, u16_at, u32_at, u64_at, PackageError, PackageLayout,
    PackageSettings,
};
use crate::redpackage_decoder;
use crate::redpackage_reader;
use crate::redpackage_reader::{Package, Reader};
use crate::text::{chars_of, push_text};
use crate::value;
use crate::value::{copy_text, find_entry, set_entry, Value};
use vstd::prelude::*;

verus! {

/// The index that an integer says.
pub open spec fn index_value(value: value::Model) -> Option<nat> {
    match value::integer_of(value) {
        Some(n) => if 0 <= n <= i64::MAX && n <= usize::MAX {
            Some(n as nat)
        } else {
            None
        },
        None => None,
    }
}

/// The chunk that an object points to.
pub open spec fn target(entries: Seq<(Seq<char>, value::Model)>) -> Option<nat> {
    match entries::find(entries, "$package_handle"@) {
        Some(value) => index_value(value),
        None => None,
    }
}

/// A value that points to a chunk, itself or through what it holds.
pub open spec fn points_to(value: value::Model, index: nat) -> bool
    decreases value,
{
    match value {
        value::Model::Array(items) => any_points_to(items, index),
        value::Model::Object(entries) => target(entries) == Some(index) || any_entry_points_to(
            entries,
            index,
        ),
        _ => false,
    }
}

/// Values of which one points to a chunk.
pub open spec fn any_points_to(items: Seq<value::Model>, index: nat) -> bool
    decreases items,
{
    items.len() > 0 && (any_points_to(items.drop_last(), index) || points_to(items.last(), index))
}

/// Entries of which one points to a chunk.
pub open spec fn any_entry_points_to(entries: Seq<(Seq<char>, value::Model)>, index: nat) -> bool
    decreases entries,
{
    entries.len() > 0 && (any_entry_points_to(entries.drop_last(), index) || points_to(
        entries.last().1,
        index,
    ))
}

fn handle_target(entries: &Vec<(String, Value)>) -> (result: Option<usize>)
    ensures
        match target(value::entry_models(entries@)) {
            Some(index) => result matches Some(r) && r == index,
            None => result is None,
        },
{
    match find_entry(entries, "$package_handle") {
        None => None,
        Some(value) => match value.as_integer() {
            None => None,
            Some(n) => if 0 <= n && n <= i64::MAX as i128 && n <= usize::MAX as i128 {
                Some(n as usize)
            } else {
                None
            },
        },
    }
}

/// Marks the chunks that a value points to.
fn collect_handle_targets(value: &Value, marks: &mut Vec<bool>)
    ensures
        final(marks)@.len() == old(marks)@.len(),
        forall|k: nat|
            k < old(marks)@.len() ==> #[trigger] final(marks)@[k as int] == (old(marks)@[k as int]
                || points_to(value@, k)),
    decreases value,
{
    let ghost before = marks@;
    match value {
        Value::Array(items) => {
            let ghost all = value::models(items@);
            proof {
                value::lemma_models(items@);
                assert(all.subrange(0, 0) =~= Seq::empty());
            }
            let mut i: usize = 0;
            while i < items.len()
                invariant
                    i <= items@.len(),
                    *value == Value::Array(*items),
                    all == value::models(items@),
                    all.len() == items@.len(),
                    forall|k: int|
                        0 <= k < items@.len() ==> #[trigger] all[k] == value::model(items@[k]),
                    marks@.len() == before.len(),
                    forall|k: nat|
                        k < before.len() ==> #[trigger] marks@[k as int] == (before[k as int]
                            || any_points_to(all.subrange(0, i as int), k)),
                decreases items@.len() - i,
            {
                proof {
                    assert(decreases_to!(value => value->Array_0));
                    assert(decreases_to!(items => items@));
                    assert(decreases_to!(items@ => items@[i as int]));
                    assert(all.subrange(0, i + 1).drop_last() =~= all.subrange(0, i as int));
                    assert(all[i as int] == value::model(items@[i as int]));
                }
                collect_handle_targets(&items[i], marks);
                i = i + 1;
            }
            assert(all.subrange(0, i as int) =~= all);
        },
        Value::Object(entries) => {
            let ghost all = value::entry_models(entries@);
            proof {
                value::lemma_entry_models(entries@);
                assert(all.subrange(0, 0) =~= Seq::empty());
            }
            if let Some(index) = handle_target(entries) {
                if index < marks.len() {
                    marks.set(index, true);
                }
            }
            let ghost own = marks@;
            let mut i: usize = 0;
            while i < entries.len()
                invariant
                    i <= entries@.len(),
                    *value == Value::Object(*entries),
                    all == value::entry_models(entries@),
                    all.len() == entries@.len(),
                    forall|k: int|
                        0 <= k < entries@.len() ==> #[trigger] all[k] == (
                            entries@[k].0@,
                            value::model(entries@[k].1),
                        ),
                    marks@.len() == own.len(),
                    forall|k: nat|
                        k < own.len() ==> #[trigger] marks@[k as int] == (own[k as int]
                            || any_entry_points_to(all.subrange(0, i as int), k)),
                decreases entries@.len() - i,
            {
                proof {
                    assert(decreases_to!(value => value->Object_0));
                    assert(decreases_to!(entries => entries@));
                    assert(decreases_to!(entries@ => entries@[i as int]));
                    assert(decreases_to!(entries@[i as int] => entries@[i as int].1));
                    assert(all.subrange(0, i + 1).drop_last() =~= all.subrange(0, i as int));
                    assert(all[i as int].1 == value::model(entries@[i as int].1));
                }
                collect_handle_targets(&entries[i].1, marks);
                i = i + 1;
            }
            proof {
                assert(all.subrange(0, i as int) =~= all);
                assert forall|k: nat| k < before.len() implies #[trigger] marks@[k as int] == (
                before[k as int] || points_to(value@, k)) by {
                    assert(own[k as int] == (before[k as int] || target(all) == Some(k)));
                }
            }
        },
        _ => {},
    }
}

/// A handle that was met before.
pub open spec fn handle_again(id: nat) -> value::Model {
    value::Model::Object(
        entries::put(
            Seq::empty(),
            "HandleRefId"@,
            value::Model::Text(number_text::decimal(id)),
        ),
    )
}

/// A handle with what it leads to.
pub open spec fn handle_with(id: nat, data: value::Model) -> value::Model {
    value::Model::Object(
        entries::put(
            entries::put(
                Seq::empty(),
                "HandleId"@,
                value::Model::Text(number_text::decimal(id)),
            ),
            "Data"@,
            data,
        ),
    )
}

/// Makes a handle that was met before.
pub fn new_handle_again(id: u64) -> (result: Value)
    ensures
        result@ == handle_again(id as nat),
{
    let mut fields: Vec<(String, Value)> = Vec::new();
    set_entry(&mut fields, "HandleRefId", Value::Text(decimal_text(id)));
    Value::Object(fields)
}

/// Makes a handle with what it leads to.
pub fn new_handle_with(id: u64, data: Value) -> (result: Value)
    ensures
        result@ == handle_with(id as nat, data@),
{
    let mut fields: Vec<(String, Value)> = Vec::new();
    set_entry(&mut fields, "HandleId", Value::Text(decimal_text(id)));
    set_entry(&mut fields, "Data", data);
    Value::Object(fields)
}

/// A value that is nothing but a handle.
pub open spec fn is_handle(entries: Seq<(Seq<char>, value::Model)>) -> bool {
    entries.len() == 1 && entries[0].0 == "$package_handle"@
}

/// A value with its handles replaced by what they lead to, each the first time
/// that it is met, and the chunks that were met. No chain of handles is longer
/// than `depth`.
pub open spec fn expanded(
    value: value::Model,
    chunks: Seq<value::Model>,
    visited: Seq<bool>,
    base: nat,
    depth: nat,
) -> Result<(value::Model, Seq<bool>), redpackage::Fault>
    decreases depth, value,
{
    match value {
        value::Model::Array(items) => match expanded_items(items, chunks, visited, base, depth) {
            Ok((out, after)) => Ok((value::Model::Array(out), after)),
            Err(f) => Err(f),
        },
        value::Model::Object(entries) => if is_handle(entries) {
            match target(entries) {
                None => redpackage::fault(0, "handle index"@),
                Some(index) => if base + index > usize::MAX {
                    redpackage::fault(0, "handle ID"@)
                } else if index < visited.len() && visited[index as int] {
                    Ok((handle_again(base + index), visited))
                } else if index >= chunks.len() || index >= visited.len() || depth == 0 {
                    redpackage::fault(0, "handle target"@)
                } else {
                    match expanded(
                        chunks[index as int],
                        chunks,
                        visited.update(index as int, true),
                        base,
                        (depth - 1) as nat,
                    ) {
                        Err(f) => Err(f),
                        Ok((data, after)) => Ok((handle_with(base + index, data), after)),
                    }
                },
            }
        } else {
            match expanded_entries(entries, chunks, visited, base, depth) {
                Ok((out, after)) => Ok((value::Model::Object(out), after)),
                Err(f) => Err(f),
            }
        },
        _ => Ok((value, visited)),
    }
}

/// Values with their handles replaced, one after the other.
pub open spec fn expanded_items(
    items: Seq<value::Model>,
    chunks: Seq<value::Model>,
    visited: Seq<bool>,
    base: nat,
    depth: nat,
) -> Result<(Seq<value::Model>, Seq<bool>), redpackage::Fault>
    decreases depth, items,
{
    if items.len() == 0 {
        Ok((Seq::empty(), visited))
    } else {
        match expanded_items(items.drop_last(), chunks, visited, base, depth) {
            Err(f) => Err(f),
            Ok((out, after)) => match expanded(items.last(), chunks, after, base, depth) {
                Err(f) => Err(f),
                Ok((m, last)) => Ok((out.push(m), last)),
            },
        }
    }
}

/// Entries with their handles replaced, one after the other.
pub open spec fn expanded_entries(
    entries: Seq<(Seq<char>, value::Model)>,
    chunks: Seq<value::Model>,
    visited: Seq<bool>,
    base: nat,
    depth: nat,
) -> Result<(Seq<(Seq<char>, value::Model)>, Seq<bool>), redpackage::Fault>
    decreases depth, entries,
{
    if entries.len() == 0 {
        Ok((Seq::empty(), visited))
    } else {
        match expanded_entries(entries.drop_last(), chunks, visited, base, depth) {
            Err(f) => Err(f),
            Ok((out, after)) => match expanded(entries.last().1, chunks, after, base, depth) {
                Err(f) => Err(f),
                Ok((m, last)) => Ok((out.push((entries.last().0, m)), last)),
            },
        }
    }
}

proof fn lemma_items_fail(
    items: Seq<value::Model>,
    n: int,
    chunks: Seq<value::Model>,
    visited: Seq<bool>,
    base: nat,
    depth: nat,
)
    requires
        0 <= n <= items.len(),
        expanded_items(items.subrange(0, n), chunks, visited, base, depth) is Err,
    ensures
        expanded_items(items, chunks, visited, base, depth) == expanded_items(
            items.subrange(0, n),
            chunks,
            visited,
            base,
            depth,
        ),
    decreases items.len() - n,
{
    if n == items.len() {
        assert(items.subrange(0, n) =~= items);
    } else {
        assert(items.subrange(0, n + 1).drop_last() =~= items.subrange(0, n));
        lemma_items_fail(items, n + 1, chunks, visited, base, depth);
    }
}

proof fn lemma_entries_fail(
    entries: Seq<(Seq<char>, value::Model)>,
    n: int,
    chunks: Seq<value::Model>,
    visited: Seq<bool>,
    base: nat,
    depth: nat,
)
    requires
        0 <= n <= entries.len(),
        expanded_entries(entries.subrange(0, n), chunks, visited, base, depth) is Err,
    ensures
        expanded_entries(entries, chunks, visited, base, depth) == expanded_entries(
            entries.subrange(0, n),
            chunks,
            visited,
            base,
            depth,
        ),
    decreases entries.len() - n,
{
    if n == entries.len() {
        assert(entries.subrange(0, n) =~= entries);
    } else {
        assert(entries.subrange(0, n + 1).drop_last() =~= entries.subrange(0, n));
        lemma_entries_fail(entries, n + 1, chunks, visited, base, depth);
    }
}

#[verifier::loop_isolation(false)]
fn expand_handles(
    value: &Value,
    chunks: &Vec<Value>,
    visited: &mut Vec<bool>,
    base: usize,
    depth: usize,
) -> (result: Result<Value, PackageError>)
    ensures
        match expanded(
            value@,
            value::models(chunks@),
            old(visited)@,
            base as nat,
            depth as nat,
        ) {
            Ok((m, after)) => result matches Ok(r) && r@ == m && final(visited)@ == after,
            Err(f) => result matches Err(e) && e@ == f,
        },
    decreases depth, value,
{
    let ghost targets = value::models(chunks@);
    let ghost before = visited@;
    match value {
        Value::Array(items) => {
            let ghost all = value::models(items@);
            proof {
                value::lemma_models(items@);
                assert(all.subrange(0, 0) =~= Seq::empty());
            }
            let mut out: Vec<Value> = Vec::new();
            let mut i: usize = 0;
            while i < items.len()
                invariant
                    i <= items@.len(),
                    expanded_items(
                        all.subrange(0, i as int),
                        targets,
                        before,
                        base as nat,
                        depth as nat,
                    ) == Ok::<(Seq<value::Model>, Seq<bool>), redpackage::Fault>(
                        (value::models(out@), visited@),
                    ),
                decreases items@.len() - i,
            {
                proof {
                    assert(decreases_to!(value => value->Array_0));
                    assert(decreases_to!(items => items@));
                    assert(decreases_to!(items@ => items@[i as int]));
                    assert(all.subrange(0, i + 1).drop_last() =~= all.subrange(0, i as int));
                    assert(all.subrange(0, i + 1).last() == value::model(items@[i as int]));
                }
                match expand_handles(&items[i], chunks, visited, base, depth) {
                    Ok(item) => {
                        proof {
                            value::lemma_models_push(out@, item);
                        }
                        out.push(item);
                    },
                    Err(error) => {
                        proof {
                            lemma_items_fail(
                                all,
                                i + 1,
                                targets,
                                before,
                                base as nat,
                                depth as nat,
                            );
                        }
                        return Err(error);
                    },
                }
                i = i + 1;
            }
            assert(all.subrange(0, i as int) =~= all);
            Ok(Value::Array(out))
        },
        Value::Object(entries) => {
            let ghost all = value::entry_models(entries@);
            proof {
                value::lemma_entry_models(entries@);
                assert(all.subrange(0, 0) =~= Seq::empty());
            }
            let handle: bool = entries.len() == 1 && crate::text::same_text(
                entries[0].0.as_str(),
                "$package_handle",
            );
            assert(handle == is_handle(all)) by {
                if entries@.len() == 1 {
                    assert(all[0].0 == entries@[0].0@);
                }
            }
            if handle {
                let index: usize = match handle_target(entries) {
                    Some(index) => index,
                    None => return Err(malformed(0, "handle index")),
                };
                let id: usize = match base.checked_add(index) {
                    Some(id) => id,
                    None => return Err(malformed(0, "handle ID")),
                };
                if index < visited.len() && visited[index] {
                    return Ok(new_handle_again(id as u64));
                }
                proof {
                    value::lemma_models(chunks@);
                }
                if index >= chunks.len() || index >= visited.len() || depth == 0 {
                    return Err(malformed(0, "handle target"));
                }
                visited.set(index, true);
                return match expand_handles(&chunks[index], chunks, visited, base, depth - 1) {
                    Ok(data) => Ok(new_handle_with(id as u64, data)),
                    Err(error) => Err(error),
                };
            }
            let mut out: Vec<(String, Value)> = Vec::new();
            let mut i: usize = 0;
            while i < entries.len()
                invariant
                    i <= entries@.len(),
                    expanded_entries(
                        all.subrange(0, i as int),
                        targets,
                        before,
                        base as nat,
                        depth as nat,
                    ) == Ok::<(Seq<(Seq<char>, value::Model)>, Seq<bool>), redpackage::Fault>(
                        (value::entry_models(out@), visited@),
                    ),
                decreases entries@.len() - i,
            {
                proof {
                    assert(decreases_to!(value => value->Object_0));
                    assert(decreases_to!(entries => entries@));
                    assert(decreases_to!(entries@ => entries@[i as int]));
                    assert(decreases_to!(entries@[i as int] => entries@[i as int].1));
                    assert(all.subrange(0, i + 1).drop_last() =~= all.subrange(0, i as int));
                    assert(all.subrange(0, i + 1).last() == (
                        entries@[i as int].0@,
                        value::model(entries@[i as int].1),
                    ));
                }
                match expand_handles(&entries[i].1, chunks, visited, base, depth) {
                    Ok(item) => {
                        let entry: (String, Value) = (copy_text(entries[i].0.as_str()), item);
                        proof {
                            value::lemma_entry_models_push(out@, entry);
                        }
                        out.push(entry);
                    },
                    Err(error) => {
                        proof {
                            lemma_entries_fail(
                                all,
                                i + 1,
                                targets,
                                before,
                                base as nat,
                                depth as nat,
                            );
                        }
                        return Err(error);
                    },
                }
                i = i + 1;
            }
            assert(all.subrange(0, i as int) =~= all);
            Ok(Value::Object(out))
        },
        _ => Ok(value.copy()),
    }
}

/// Numbers of 64 bits, behind those found, and where they end.
pub open spec fn longs_from(bytes: Seq<u8>, at: nat, left: nat, found: Seq<nat>) -> Result<
    Seq<nat>,
    redpackage::Fault,
>
    decreases left,
{
    if left == 0 {
        Ok(found)
    } else {
        match redpackage::number(bytes, at, 8) {
            Err(f) => Err(f),
            Ok(n) => longs_from(bytes, at + 8, (left - 1) as nat, found.push(n)),
        }
    }
}

/// Where a chunk ends.
pub open spec fn chunk_end(chunks: Seq<(nat, nat)>, i: nat, size: nat) -> nat {
    if i + 1 < chunks.len() {
        chunks[i as int + 1].1
    } else {
        size
    }
}

/// Why a chunk could not be read.
pub open spec fn chunk_fault(i: nat, class: Seq<char>, fault: redpackage::Fault) -> redpackage::Fault {
    redpackage::Fault::Unsupported(
        "chunk "@ + number_text::decimal(i) + " "@ + class + ": "@ + redpackage::fault_text(fault),
    )
}

/// The chunks from index `i` on, behind those found.
pub open spec fn chunk_values(
    p: Package,
    chunks: Seq<(nat, nat)>,
    i: nat,
    found: Seq<value::Model>,
) -> Result<Seq<value::Model>, redpackage::Fault>
    decreases chunks.len() - i,
{
    if i >= chunks.len() {
        Ok(found)
    } else {
        let start = chunks[i as int].1;
        let end = chunk_end(chunks, i, p.bytes.len());
        match redpackage_reader::name_of(p, chunks[i as int].0, start) {
            Err(f) => Err(f),
            Ok(class) => if end + 64 > usize::MAX {
                redpackage::fault(start, "chunk bounds"@)
            } else {
                match redpackage_decoder::class_at(p, class, start, end) {
                    Err(f) => Err(chunk_fault(i, class, f)),
                    Ok((m, consumed)) => if consumed > end {
                        redpackage::fault(consumed, "chunk overrun"@)
                    } else {
                        chunk_values(p, chunks, i + 1, found.push(m))
                    },
                }
            },
        }
    }
}

/// The first `n` chunks to which none points.
pub open spec fn roots(chunks: Seq<value::Model>, n: nat) -> Seq<nat>
    decreases n,
{
    if n == 0 {
        Seq::empty()
    } else {
        let before = roots(chunks, (n - 1) as nat);
        if any_points_to(chunks, (n - 1) as nat) {
            before
        } else {
            before.push((n - 1) as nat)
        }
    }
}

/// The values at some indices.
pub open spec fn chosen(chunks: Seq<value::Model>, indices: Seq<nat>) -> Seq<value::Model> {
    indices.map_values(|i: nat| chunks[i as int])
}

/// The first `n` numbers, under their indices.
pub open spec fn number_dict(numbers: Seq<nat>, n: nat) -> Seq<(Seq<char>, value::Model)>
    decreases n,
{
    if n == 0 {
        Seq::empty()
    } else {
        let before = number_dict(numbers, (n - 1) as nat);
        if n - 1 < numbers.len() {
            entries::put(
                before,
                number_text::decimal((n - 1) as nat),
                value::Model::Text(number_text::decimal(numbers[n - 1])),
            )
        } else {
            before
        }
    }
}

/// The document of a package.
pub open spec fn document(
    version: nat,
    sections: nat,
    cruid_index: int,
    cruids: Seq<nat>,
    chunks: Seq<value::Model>,
    settings: PackageSettings,
) -> Result<value::Model, redpackage::Fault> {
    match expanded_items(
        chosen(chunks, roots(chunks, chunks.len())),
        chunks,
        Seq::new(chunks.len(), |i: int| false),
        settings.handle_id_base as nat,
        chunks.len(),
    ) {
        Err(f) => Err(f),
        Ok((out, _)) => Ok(
            value::Model::Object(
                entries::put(
                    entries::put(
                        entries::put(
                            entries::put(
                                entries::put(
                                    Seq::empty(),
                                    "Version"@,
                                    value::integer(version as int),
                                ),
                                "Sections"@,
                                value::integer(sections as int),
                            ),
                            "CruidIndex"@,
                            value::integer(cruid_index),
                        ),
                        "CruidDict"@,
                        value::Model::Object(number_dict(cruids, out.len())),
                    ),
                    "Chunks"@,
                    value::Model::Array(out),
                ),
            ),
        ),
    }
}

/// The head of a package: its version and sections, and the numbers behind its
/// header.
pub open spec fn head(bytes: Seq<u8>) -> Result<(nat, nat, int, Seq<nat>), redpackage::Fault> {
    match (redpackage::byte_at(bytes, 0), redpackage::byte_at(bytes, 1)) {
        (Err(f), _) => Err(f),
        (_, Err(f)) => Err(f),
        (Ok(version), Ok(_)) => if !(2 <= version <= 4) {
            redpackage::fault(0, "version"@)
        } else {
            match redpackage::number(bytes, 2, 2) {
                Err(f) => Err(f),
                Ok(sections) => if !(6 <= sections <= 7) {
                    redpackage::fault(2, "section count"@)
                } else {
                    match (
                        redpackage::number(bytes, 4, 4),
                        redpackage::section_offsets(bytes, sections),
                    ) {
                        (Err(f), _) => Err(f),
                        (_, Err(f)) => Err(f),
                        (Ok(_), Ok(_)) => {
                            let at = redpackage::header_size(sections);
                            match (
                                redpackage::short(bytes, at),
                                redpackage::number(bytes, at + 2, 2),
                            ) {
                                (Err(f), _) => Err(f),
                                (_, Err(f)) => Err(f),
                                (Ok(index), Ok(count)) => match longs_from(
                                    bytes,
                                    at + 4,
                                    count,
                                    Seq::empty(),
                                ) {
                                    Err(f) => Err(f),
                                    Ok(cruids) => Ok((version, sections, index, cruids)),
                                },
                            }
                        },
                    }
                },
            }
        },
    }
}

/// What the values of a package with a layout are read from.
pub open spec fn package(
    bytes: Seq<u8>,
    layout: redpackage::LayoutModel,
    classes: Seq<(Seq<char>, ())>,
) -> Package {
    Package {
        bytes,
        names: layout.names,
        imports: layout.imports,
        classes,
        version: layout.version,
        unknown1: layout.unknown1,
    }
}

/// The document of the bytes of a package.
pub open spec fn decoded(
    bytes: Seq<u8>,
    classes: Seq<(Seq<char>, ())>,
    settings: PackageSettings,
) -> Result<value::Model, redpackage::Fault> {
    if bytes.len() + 64 > usize::MAX {
        redpackage::fault(0, "package size"@)
    } else {
        match head(bytes) {
            Err(f) => Err(f),
            Ok((version, sections, cruid_index, cruids)) => match redpackage::layout_of(
                bytes,
                settings.imports_as_hash,
            ) {
                Err(f) => Err(f),
                Ok(layout) => match chunk_values(
                    package(bytes, layout, classes),
                    layout.chunks,
                    0,
                    Seq::empty(),
                ) {
                    Err(f) => Err(f),
                    Ok(chunks) => document(
                        version,
                        sections,
                        cruid_index,
                        cruids,
                        chunks,
                        settings,
                    ),
                },
            },
        }
    }
}

/// Numbers as they are.
pub open spec fn long_numbers(numbers: Seq<u64>) -> Seq<nat> {
    numbers.map_values(|n: u64| n as nat)
}

#[verifier::loop_isolation(false)]
fn read_longs(bytes: &[u8], from: usize, count: usize) -> (result: Result<Vec<u64>, PackageError>)
    ensures
        match longs_from(bytes@, from as nat, count as nat, Seq::empty()) {
            Ok(numbers) => result matches Ok(r) && long_numbers(r@) == numbers,
            Err(f) => result matches Err(e) && e@ == f,
        },
{
    let size: usize = bytes.len();
    let ghost wanted = longs_from(bytes@, from as nat, count as nat, Seq::empty());
    let mut numbers: Vec<u64> = Vec::new();
    let mut at: usize = from;
    let mut left: usize = count;
    assert(long_numbers(numbers@) =~= Seq::empty());
    while left > 0
        invariant
            wanted == longs_from(bytes@, at as nat, left as nat, long_numbers(numbers@)),
        decreases left,
    {
        let n: u64 = match u64_at(bytes, at) {
            Ok(n) => n,
            Err(error) => return Err(error),
        };
        assert(long_numbers(numbers@.push(n)) =~= long_numbers(numbers@).push(n as nat));
        numbers.push(n);
        at = at + 8;
        left = left - 1;
    }
    Ok(numbers)
}

struct Head {
    version: u8,
    sections: u16,
    cruid_index: i16,
    cruids: Vec<u64>,
}

fn read_head(bytes: &[u8]) -> (result: Result<Head, PackageError>)
    ensures
        match head(bytes@) {
            Ok(h) => result matches Ok(r) && r.version == h.0 && r.sections == h.1 && r.cruid_index
                == h.2 && long_numbers(r.cruids@) == h.3,
            Err(f) => result matches Err(e) && e@ == f,
        },
{
    let size: usize = bytes.len();
    let version: u8 = match byte(bytes, 0) {
        Ok(value) => value,
        Err(error) => return Err(error),
    };
    match byte(bytes, 1) {
        Ok(_) => {},
        Err(error) => return Err(error),
    }
    if version < 2 || version > 4 {
        return Err(malformed(0, "version"));
    }
    let sections: u16 = match u16_at(bytes, 2) {
        Ok(value) => value,
        Err(error) => return Err(error),
    };
    if sections < 6 || sections > 7 {
        return Err(malformed(2, "section count"));
    }
    match u32_at(bytes, 4) {
        Ok(_) => {},
        Err(error) => return Err(error),
    }
    match redpackage::read_offsets(bytes, sections) {
        Ok(_) => {},
        Err(error) => return Err(error),
    }
    let at: usize = if sections == 7 {
        32
    } else {
        24
    };
    let cruid_index: i16 = match i16_at(bytes, at) {
        Ok(value) => value,
        Err(error) => return Err(error),
    };
    let count: u16 = match u16_at(bytes, at + 2) {
        Ok(value) => value,
        Err(error) => return Err(error),
    };
    match read_longs(bytes, at + 4, count as usize) {
        Ok(cruids) => Ok(Head { version, sections, cruid_index, cruids }),
        Err(error) => Err(error),
    }
}

fn describe_chunk(i: usize, class: &str, error: &PackageError) -> (result: PackageError)
    ensures
        result@ == chunk_fault(i as nat, class@, error@),
{
    let mut text: String = copy_text("chunk ");
    push_text(&mut text, decimal_text(i as u64).as_str());
    push_text(&mut text, " ");
    push_text(&mut text, class);
    push_text(&mut text, ": ");
    push_text(&mut text, error.describe().as_str());
    PackageError::Unsupported(text)
}

/// Where a chunk ends.
pub fn end_of_chunk(chunks: &Vec<(usize, usize)>, i: usize, size: usize) -> (result: usize)
    requires
        i < chunks@.len(),
    ensures
        result == chunk_end(redpackage::chunk_numbers(chunks@), i as nat, size as nat),
{
    if chunks.len() - i > 1 {
        assert(redpackage::chunk_numbers(chunks@)[i + 1] == (
            chunks@[i + 1].0 as nat,
            chunks@[i + 1].1 as nat,
        ));
        chunks[i + 1].1
    } else {
        size
    }
}

#[verifier::loop_isolation(false)]
fn read_chunks(reader: &Reader<'_>, chunks: &Vec<(usize, usize)>) -> (result: Result<
    Vec<Value>,
    PackageError,
>)
    requires
        reader.bytes@.len() + 64 <= usize::MAX,
    ensures
        match chunk_values(
            reader@,
            redpackage::chunk_numbers(chunks@),
            0,
            Seq::empty(),
        ) {
            Ok(values) => result matches Ok(r) && value::models(r@) == values,
            Err(f) => result matches Err(e) && e@ == f,
        },
{
    let ghost numbers = redpackage::chunk_numbers(chunks@);
    let ghost wanted = chunk_values(reader@, numbers, 0, Seq::empty());
    let mut values: Vec<Value> = Vec::new();
    let mut i: usize = 0;
    while i < chunks.len()
        invariant
            i <= chunks@.len(),
            wanted == chunk_values(reader@, numbers, i as nat, value::models(values@)),
        decreases chunks@.len() - i,
    {
        let (kind, start): (usize, usize) = chunks[i];
        assert(numbers[i as int] == (kind as nat, start as nat));
        let end: usize = end_of_chunk(chunks, i, reader.bytes.len());
        let class: &str = match reader.name(kind, start) {
            Ok(class) => class,
            Err(error) => return Err(error),
        };
        if end > usize::MAX - 64 {
            return Err(malformed(start, "chunk bounds"));
        }
        let class_chars: Vec<char> = chars_of(class);
        let (value, consumed): (Value, usize) = match reader.read_class(&class_chars, start, end) {
            Ok(reading) => reading,
            Err(error) => return Err(describe_chunk(i, class, &error)),
        };
        if consumed > end {
            return Err(malformed(consumed, "chunk overrun"));
        }
        proof {
            value::lemma_models_push(values@, value);
        }
        values.push(value);
        i = i + 1;
    }
    Ok(values)
}

/// The indices of the chunks to which none points.
pub fn root_chunks(chunks: &Vec<Value>) -> (result: Vec<usize>)
    ensures
        result@.map_values(|i: usize| i as nat) == roots(
            value::models(chunks@),
            value::models(chunks@).len(),
        ),
        forall|k: int| 0 <= k < result@.len() ==> #[trigger] result@[k] < chunks@.len(),
{
    let ghost all = value::models(chunks@);
    proof {
        value::lemma_models(chunks@);
        assert(all.subrange(0, 0) =~= Seq::empty());
    }
    let mut marks: Vec<bool> = Vec::new();
    let mut n: usize = 0;
    while n < chunks.len()
        invariant
            n <= chunks@.len(),
            marks@.len() == n,
            forall|k: int| 0 <= k < n ==> !#[trigger] marks@[k],
        decreases chunks@.len() - n,
    {
        marks.push(false);
        n = n + 1;
    }
    let mut i: usize = 0;
    while i < chunks.len()
        invariant
            i <= chunks@.len(),
            all == value::models(chunks@),
            all.len() == chunks@.len(),
            forall|k: int| 0 <= k < chunks@.len() ==> #[trigger] all[k] == value::model(chunks@[k]),
            marks@.len() == chunks@.len(),
            forall|k: nat|
                k < marks@.len() ==> #[trigger] marks@[k as int] == any_points_to(
                    all.subrange(0, i as int),
                    k,
                ),
        decreases chunks@.len() - i,
    {
        proof {
            assert(all.subrange(0, i + 1).drop_last() =~= all.subrange(0, i as int));
            assert(all[i as int] == value::model(chunks@[i as int]));
        }
        collect_handle_targets(&chunks[i], &mut marks);
        i = i + 1;
    }
    assert(all.subrange(0, i as int) =~= all);
    let mut found: Vec<usize> = Vec::new();
    let mut k: usize = 0;
    assert(found@.map_values(|i: usize| i as nat) =~= roots(all, 0));
    while k < chunks.len()
        invariant
            k <= chunks@.len(),
            marks@.len() == chunks@.len(),
            forall|j: nat| j < marks@.len() ==> #[trigger] marks@[j as int] == any_points_to(all, j),
            found@.map_values(|i: usize| i as nat) == roots(all, k as nat),
            forall|j: int| 0 <= j < found@.len() ==> #[trigger] found@[j] < chunks@.len(),
        decreases chunks@.len() - k,
    {
        let pointed: bool = marks[k];
        assert(marks@[(k as nat) as int] == any_points_to(all, k as nat));
        if !pointed {
            assert(found@.push(k).map_values(|i: usize| i as nat) =~= found@.map_values(
                |i: usize| i as nat,
            ).push(k as nat));
            found.push(k);
        }
        k = k + 1;
    }
    found
}

#[verifier::loop_isolation(false)]
fn expand_roots(chunks: &Vec<Value>, indices: &Vec<usize>, base: usize) -> (result: Result<
    Vec<Value>,
    PackageError,
>)
    requires
        forall|k: int| 0 <= k < indices@.len() ==> #[trigger] indices@[k] < chunks@.len(),
    ensures
        match expanded_items(
            chosen(value::models(chunks@), indices@.map_values(|i: usize| i as nat)),
            value::models(chunks@),
            Seq::new(chunks@.len(), |i: int| false),
            base as nat,
            chunks@.len(),
        ) {
            Ok((out, _)) => result matches Ok(r) && value::models(r@) == out,
            Err(f) => result matches Err(e) && e@ == f,
        },
{
    let ghost all = value::models(chunks@);
    let ghost picked = chosen(all, indices@.map_values(|i: usize| i as nat));
    let ghost fresh = Seq::new(chunks@.len(), |i: int| false);
    proof {
        value::lemma_models(chunks@);
        assert(picked.subrange(0, 0) =~= Seq::empty());
    }
    let mut visited: Vec<bool> = Vec::new();
    let mut n: usize = 0;
    while n < chunks.len()
        invariant
            n <= chunks@.len(),
            visited@ =~= fresh.subrange(0, n as int),
        decreases chunks@.len() - n,
    {
        visited.push(false);
        n = n + 1;
    }
    assert(visited@ =~= fresh);
    let mut out: Vec<Value> = Vec::new();
    let mut i: usize = 0;
    while i < indices.len()
        invariant
            i <= indices@.len(),
            expanded_items(
                picked.subrange(0, i as int),
                all,
                fresh,
                base as nat,
                chunks@.len(),
            ) == Ok::<(Seq<value::Model>, Seq<bool>), redpackage::Fault>(
                (value::models(out@), visited@),
            ),
        decreases indices@.len() - i,
    {
        let index: usize = indices[i];
        proof {
            assert(picked.subrange(0, i + 1).drop_last() =~= picked.subrange(0, i as int));
            assert(picked[i as int] == all[index as int]);
        }
        match expand_handles(&chunks[index], chunks, &mut visited, base, chunks.len()) {
            Ok(value) => {
                proof {
                    value::lemma_models_push(out@, value);
                }
                out.push(value);
            },
            Err(error) => {
                proof {
                    lemma_items_fail(picked, i + 1, all, fresh, base as nat, chunks@.len());
                }
                return Err(error);
            },
        }
        i = i + 1;
    }
    assert(picked.subrange(0, i as int) =~= picked);
    Ok(out)
}

fn cruid_dict(cruids: &Vec<u64>, count: usize) -> (result: Vec<(String, Value)>)
    ensures
        value::entry_models(result@) == number_dict(long_numbers(cruids@), count as nat),
{
    let ghost numbers = long_numbers(cruids@);
    let mut dict: Vec<(String, Value)> = Vec::new();
    let mut i: usize = 0;
    while i < count
        invariant
            i <= count,
            numbers == long_numbers(cruids@),
            value::entry_models(dict@) == number_dict(numbers, i as nat),
        decreases count - i,
    {
        if i < cruids.len() {
            assert(numbers[i as int] == cruids@[i as int] as nat);
            set_entry(
                &mut dict,
                decimal_text(i as u64).as_str(),
                Value::Text(decimal_text(cruids[i])),
            );
        }
        i = i + 1;
    }
    dict
}

/// Decodes a package to a document.
pub fn decode(bytes: &[u8], classes: &Vec<String>, settings: PackageSettings) -> (result: Result<
    Value,
    PackageError,
>)
    ensures
        match decoded(bytes@, entries::name_keys(classes@), settings) {
            Ok(m) => result matches Ok(r) && r@ == m,
            Err(f) => result matches Err(e) && e@ == f,
        },
{
    if bytes.len() > usize::MAX - 64 {
        return Err(malformed(0, "package size"));
    }
    let head: Head = match read_head(bytes) {
        Ok(head) => head,
        Err(error) => return Err(error),
    };
    let layout: PackageLayout = match parse_layout(bytes, settings.imports_as_hash) {
        Ok(layout) => layout,
        Err(error) => return Err(error),
    };
    let reader: Reader<'_> = Reader {
        bytes,
        names: &layout.names,
        imports: &layout.imports,
        classes,
        version: layout.version,
        unknown1: layout.unknown1,
    };
    let chunks: Vec<Value> = match read_chunks(&reader, &layout.chunks) {
        Ok(chunks) => chunks,
        Err(error) => return Err(error),
    };
    proof {
        value::lemma_models(chunks@);
    }
    let indices: Vec<usize> = root_chunks(&chunks);
    let out: Vec<Value> = match expand_roots(&chunks, &indices, settings.handle_id_base) {
        Ok(out) => out,
        Err(error) => return Err(error),
    };
    proof {
        value::lemma_models(out@);
    }
    let dict: Vec<(String, Value)> = cruid_dict(&head.cruids, out.len());
    let mut fields: Vec<(String, Value)> = Vec::new();
    set_entry(&mut fields, "Version", Value::integer(head.version as i128));
    set_entry(&mut fields, "Sections", Value::integer(head.sections as i128));
    set_entry(&mut fields, "CruidIndex", Value::integer(head.cruid_index as i128));
    set_entry(&mut fields, "CruidDict", Value::Object(dict));
    set_entry(&mut fields, "Chunks", Value::Array(out));
    Ok(Value::Object(fields))
}

} // verus!
