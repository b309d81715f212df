//! What is collected while a package is rebuilt from its own document.

use crate::entries;
use crate::number_text;
use crate::redpackage;
use crate::redpackage::{Fault, ImportModel, PathModel};
use crate::redpackage_document;
use crate::redpackage_expansion_laws;
use crate::redpackage_expansion_laws::{avoids, shows};
use crate::redpackage_pools;
use crate::redpackage_pools::{Source, State};
use crate::redpackage_reader;
use crate::redpackage_reader::Package;
use crate::redpackage_writer;
use crate::value;
use crate::value::Model;
use vstd::prelude::*;

verus! {

/// A package that is rebuilt: the package, the chunks that it holds, and the
/// values of its document.
pub ghost struct Scene {
    pub package: Package,
    pub flat: Seq<Model>,
    pub base: nat,
    pub roots: Seq<nat>,
    pub values: Seq<Model>,
}

/// What a value holds at an index.
pub open spec fn child(m: Model, k: nat) -> Option<Model> {
    match m {
        Model::Array(items) => if k < items.len() {
            Some(items[k as int])
        } else {
            None
        },
        Model::Object(list) => if k < list.len() {
            Some(list[k as int].1)
        } else {
            None
        },
        _ => None,
    }
}

/// What stands at a path of a document.
pub open spec fn lookup(values: Seq<Model>, path: Seq<nat>) -> Option<Model>
    decreases path.len(),
{
    if path.len() == 0 {
        None
    } else if path.len() == 1 {
        if path[0] < values.len() {
            Some(values[path[0] as int])
        } else {
            None
        }
    } else {
        match lookup(values, path.drop_last()) {
            None => None,
            Some(m) => child(m, path.last()),
        }
    }
}

/// What stands one step further.
pub proof fn lemma_lookup(values: Seq<Model>, path: Seq<nat>, k: nat, m: Model)
    requires
        path.len() >= 1,
        lookup(values, path) == Some(m),
    ensures
        lookup(values, path.push(k)) == child(m, k),
        path.push(k).drop_last() == path,
{
    assert(path.push(k).drop_last() =~= path);
}

/// The identity of a handle.
pub open spec fn identity(m: Option<Model>) -> Option<Seq<char>> {
    match m {
        Some(m) => redpackage_pools::text_member(m, "HandleId"@),
        None => None,
    }
}

/// Whether a chunk that was met is that of the document.
pub open spec fn chunk_kept(sc: Scene, c: (nat, Seq<nat>, Model)) -> bool {
    &&& c.0 < sc.flat.len()
    &&& shows(c.2, sc.flat[c.0 as int], sc.flat, sc.base)
    &&& c.1.len() >= 1
    &&& lookup(sc.values, c.1) == Some(c.2)
    &&& c.1.len() >= 2 ==> identity(lookup(sc.values, c.1.drop_last())) == Some(
        number_text::decimal(sc.base + c.0),
    )
}

/// The path that an import is shown with.
pub open spec fn shown_path(import: ImportModel) -> Seq<char> {
    match import.path {
        PathModel::Text(path) => path,
        PathModel::Hash(hash) => number_text::decimal(hash as nat),
    }
}

/// Whether an import that is known by a path is shown with it.
pub open spec fn import_kept(imports: Seq<ImportModel>, known: (Seq<char>, bool, nat)) -> bool {
    known.2 < imports.len() && shown_path(imports[known.2 as int]) == known.0
        && imports[known.2 as int].soft == known.1
}

/// Whether nothing was collected but what the package holds.
pub open spec fn kept(sc: Scene, state: State) -> bool {
    &&& state.names == sc.package.names
    &&& state.imports == sc.package.imports
    &&& state.templates == Seq::new(sc.flat.len(), |i: int| i as nat)
    &&& forall|i: int|
        0 <= i < state.ids.len() ==> (#[trigger] state.ids[i]).0 == number_text::decimal(
            sc.base + state.ids[i].1,
        )
    &&& forall|i: int|
        0 <= i < state.claimed.len() ==> sc.roots.contains(#[trigger] state.claimed[i])
            || redpackage_pools::last_index(
            state.ids,
            number_text::decimal(sc.base + state.claimed[i]),
        ) is Some
    &&& forall|i: int| 0 <= i < state.chunks.len() ==> chunk_kept(sc, #[trigger] state.chunks[i])
    &&& forall|i: int|
        0 <= i < state.known.len() ==> import_kept(sc.package.imports, #[trigger] state.known[i])
}

// ---------------------------------------------------------------------------
// Lists
// ---------------------------------------------------------------------------

proof fn lemma_last_index(list: Seq<(Seq<char>, nat)>, text: Seq<char>)
    ensures
        match redpackage_pools::last_index(list, text) {
            Some(k) => exists|i: int| 0 <= i < list.len() && #[trigger] list[i] == (text, k),
            None => forall|i: int| 0 <= i < list.len() ==> (#[trigger] list[i]).0 != text,
        },
    decreases list.len(),
{
    if list.len() > 0 {
        if list.last().0 == text {
            assert(list[list.len() - 1] == (text, list.last().1));
        } else {
            let front = list.drop_last();
            lemma_last_index(front, text);
            match redpackage_pools::last_index(front, text) {
                Some(k) => {
                    let i = choose|i: int| 0 <= i < front.len() && #[trigger] front[i] == (text, k);
                    assert(list[i] == (text, k));
                },
                None => {
                    assert forall|i: int| 0 <= i < list.len() implies (#[trigger] list[i]).0
                        != text by {
                        if i < front.len() {
                            assert(list[i] == front[i]);
                        }
                    }
                },
            }
        }
    }
}

proof fn lemma_chunk_at_path(chunks: Seq<(nat, Seq<nat>, Model)>, path: Seq<nat>)
    ensures
        redpackage_pools::chunk_at_path(chunks, path) matches Some(k) ==> exists|i: int|
            0 <= i < chunks.len() && (#[trigger] chunks[i]).0 == k && chunks[i].1 == path,
    decreases chunks.len(),
{
    if chunks.len() > 0 {
        if chunks[0].1 != path {
            let rest = chunks.drop_first();
            lemma_chunk_at_path(rest, path);
            match redpackage_pools::chunk_at_path(rest, path) {
                Some(k) => {
                    let i = choose|i: int|
                        0 <= i < rest.len() && (#[trigger] rest[i]).0 == k && rest[i].1 == path;
                    assert(chunks[i + 1] == rest[i]);
                },
                None => {},
            }
        } else {
            assert(chunks[0].0 == chunks[0].0);
        }
    }
}

/// The chunk of an index is among the chunks.
pub proof fn lemma_chunk_of(chunks: Seq<(nat, Seq<nat>, Model)>, index: nat)
    ensures
        redpackage_pools::chunk_of(chunks, index) matches Some((path, data)) ==> exists|i: int|
            0 <= i < chunks.len() && #[trigger] chunks[i] == (index, path, data),
    decreases chunks.len(),
{
    if chunks.len() > 0 {
        if chunks[0].0 == index {
            assert(chunks[0] == (index, chunks[0].1, chunks[0].2));
        } else {
            let rest = chunks.drop_first();
            lemma_chunk_of(rest, index);
            match redpackage_pools::chunk_of(rest, index) {
                Some((path, data)) => {
                    let i = choose|i: int|
                        0 <= i < rest.len() && #[trigger] rest[i] == (index, path, data);
                    assert(chunks[i + 1] == rest[i]);
                },
                None => {},
            }
        }
    }
}

proof fn lemma_with_chunk(
    sc: Scene,
    chunks: Seq<(nat, Seq<nat>, Model)>,
    index: nat,
    path: Seq<nat>,
    data: Model,
)
    requires
        forall|i: int| 0 <= i < chunks.len() ==> chunk_kept(sc, #[trigger] chunks[i]),
        chunk_kept(sc, (index, path, data)),
    ensures
        ({
            let after = redpackage_pools::with_chunk(chunks, index, path, data);
            forall|i: int| 0 <= i < after.len() ==> chunk_kept(sc, #[trigger] after[i])
        }),
{
    let at = redpackage_pools::chunk_place(chunks, index) as int;
    let after = redpackage_pools::with_chunk(chunks, index, path, data);
    assert forall|i: int| 0 <= i < after.len() implies chunk_kept(sc, #[trigger] after[i]) by {
        if i < chunks.len() && i != at {
            assert(after[i] == chunks[i]);
        }
    }
}

proof fn lemma_pushed_id(list: Seq<(Seq<char>, nat)>, text: Seq<char>, index: nat, other: Seq<char>)
    ensures
        redpackage_pools::last_index(list, other) is Some || other == text
            ==> redpackage_pools::last_index(list.push((text, index)), other) is Some,
{
    assert(list.push((text, index)).drop_last() =~= list);
}

/// Different numbers are written differently.
pub proof fn lemma_decimal_same(a: nat, b: nat)
    requires
        number_text::decimal(a) == number_text::decimal(b),
    ensures
        a == b,
{
    let max = if a > b {
        a
    } else {
        b
    };
    number_text::law_parse_decimal(a, max);
    number_text::law_parse_decimal(b, max);
}

// ---------------------------------------------------------------------------
// Handles
// ---------------------------------------------------------------------------

proof fn lemma_handle_keys(id: nat, data: Model)
    ensures
        redpackage_pools::text_member(
            redpackage_document::handle_with(id, data),
            "HandleRefId"@,
        ) is None,
        redpackage_pools::text_member(redpackage_document::handle_with(id, data), "HandleId"@)
            == Some(number_text::decimal(id)),
        redpackage_pools::text_member(redpackage_document::handle_again(id), "HandleRefId"@)
            == Some(number_text::decimal(id)),
{
    reveal_strlit("HandleId");
    reveal_strlit("HandleRefId");
    reveal_strlit("Data");
    assert("HandleId"@.len() == 8 && "HandleRefId"@.len() == 11 && "Data"@.len() == 4);
    let none = Seq::<(Seq<char>, Model)>::empty();
    let text = Model::Text(number_text::decimal(id));
    let first = entries::put(none, "HandleId"@, text);
    entries::law_put_rising(none, "HandleId"@, text);
    entries::law_find_put(none, "HandleId"@, text);
    entries::law_find_other(none, "HandleId"@, text, "HandleRefId"@);
    entries::law_find_other(first, "Data"@, data, "HandleId"@);
    entries::law_find_other(first, "Data"@, data, "HandleRefId"@);
    entries::law_find_put(none, "HandleRefId"@, text);
}

/// The value of a handle pointer.
pub open spec fn handle_value(n: int) -> Model {
    if n < 0 {
        Model::Null
    } else {
        redpackage_reader::pointer("$package_handle"@, n)
    }
}

proof fn lemma_pointer(n: nat)
    requires
        n <= 0x7fff_ffff,
    ensures
        ({
            let list = redpackage_reader::pointer("$package_handle"@, n as int)->Object_0;
            redpackage_document::is_handle(list) && redpackage_document::target(list) == Some(n)
        }),
{
    let none = Seq::<(Seq<char>, Model)>::empty();
    entries::law_find_put(none, "$package_handle"@, value::integer(n as int));
    entries::lemma_place(none, "$package_handle"@);
}

/// A handle of a document is written as the pointer that it was read from.
pub proof fn lemma_resolved(
    sc: Scene,
    source: Source,
    state: State,
    x: Model,
    path: Seq<nat>,
    n: int,
    start: nat,
    pointer: int,
    after: State,
)
    requires
        kept(sc, state),
        path.len() >= 1,
        lookup(sc.values, path) == Some(x),
        n <= 0x7fff_ffff,
        shows(x, handle_value(n), sc.flat, sc.base),
        avoids(handle_value(n), sc.roots),
        redpackage_pools::resolved(source, state, x, path, n, start) == Ok::<(int, State), Fault>(
            (pointer, after),
        ),
    ensures
        kept(sc, after),
        pointer == if n < 0 {
            -1
        } else {
            n
        },
{
    if n >= 0 {
        let index = n as nat;
        lemma_pointer(index);
        let id = sc.base + index;
        let text = number_text::decimal(id);
        let again = redpackage_document::handle_again(id);
        lemma_handle_keys(id, Model::Null);
        assert(redpackage_document::points_to(handle_value(n), index));
        lemma_last_index(state.ids, text);
        if x == again {
            number_text::lemma_decimal_digits(id);
            let said = number_text::signed_value(text)->0;
            assert(said == id);
            match redpackage_pools::last_index(state.ids, text) {
                Some(k) => {
                    lemma_decimal_same(sc.base + k, id);
                },
                None => {},
            }
        } else {
            let k = redpackage_writer::member_position(x, "Data"@)->0;
            let data = x->Object_0[k as int].1;
            lemma_handle_keys(id, data);
            redpackage_expansion_laws::lemma_handle_with(id, data);
            let place = path.push(k);
            lemma_lookup(sc.values, path, k, x);
            assert(chunk_kept(sc, (index, place, data)));
            match redpackage_pools::last_index(state.ids, text) {
                Some(met) => {
                    lemma_decimal_same(sc.base + met, id);
                    lemma_with_chunk(sc, state.chunks, index, place, data);
                },
                None => {
                    lemma_chunk_at_path(state.chunks, place);
                    match redpackage_pools::chunk_at_path(state.chunks, place) {
                        Some(found) => {
                            let i = choose|i: int|
                                0 <= i < state.chunks.len() && (#[trigger] state.chunks[i]).0
                                    == found && state.chunks[i].1 == place;
                            assert(chunk_kept(sc, state.chunks[i]));
                            lemma_decimal_same(sc.base + found, id);
                        },
                        None => {
                            if state.claimed.contains(index) {
                                let i = choose|i: int|
                                    0 <= i < state.claimed.len() && state.claimed[i] == index;
                                assert(sc.roots.contains(state.claimed[i])
                                    || redpackage_pools::last_index(
                                    state.ids,
                                    number_text::decimal(sc.base + state.claimed[i]),
                                ) is Some);
                                assert(false);
                            }
                            lemma_with_chunk(sc, state.chunks, index, place, data);
                            assert forall|i: int| 0 <= i < after.claimed.len() implies
                                sc.roots.contains(#[trigger] after.claimed[i])
                                || redpackage_pools::last_index(
                                after.ids,
                                number_text::decimal(sc.base + after.claimed[i]),
                            ) is Some by {
                                lemma_pushed_id(
                                    state.ids,
                                    text,
                                    index,
                                    number_text::decimal(sc.base + after.claimed[i]),
                                );
                                if i < state.claimed.len() {
                                    assert(after.claimed[i] == state.claimed[i]);
                                }
                            }
                        },
                    }
                },
            }
        }
    }
}

} // verus!
