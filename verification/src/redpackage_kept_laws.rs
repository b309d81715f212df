//! Plain values of a package are written so that they are read back.

use crate::binary;
use crate::entries;
use crate::number_text;
use crate::redpackage;
use crate::redpackage::{Fault, ImportModel, PathModel};
use crate::redpackage_encoder;
use crate::redpackage_expansion_laws;
use crate::redpackage_expansion_laws::{avoids, plain, shows};
use crate::redpackage_json;
use crate::redpackage_layout_laws;
use crate::redpackage_layout_laws::{alike, has_comma, listable};
use crate::redpackage_leaf_laws;
use crate::redpackage_pools;
use crate::redpackage_pools::{Source, State};
use crate::redpackage_reader;
use crate::redpackage_reader::Package;
use crate::redpackage_state_laws;
use crate::redpackage_state_laws::{kept, lookup, Scene};
use crate::sequence;
use crate::text;
use crate::value;
use crate::value::Model;
use vstd::prelude::*;

verus! {

// ---------------------------------------------------------------------------
// What a package has to hold
// ---------------------------------------------------------------------------

/// Whether base64 gives back each part of some bytes.
pub open spec fn base64_kept(bytes: Seq<u8>) -> bool {
    &&& text::base64_text(Seq::empty()) == Seq::<char>::empty()
    &&& forall|i: int, j: int|
        0 <= i <= j <= bytes.len() ==> text::base64_bytes(
            #[trigger] text::base64_text(bytes.subrange(i, j)),
        ) == Some(bytes.subrange(i, j))
}

/// Whether an import can be told from none when it is shown.
pub open spec fn import_shown(import: ImportModel, hashed: bool) -> bool {
    match import.path {
        PathModel::Text(path) => !hashed && path != "0"@,
        PathModel::Hash(hash) => hashed && (hash != 0 || !import.soft),
    }
}

/// Whether the imports of a package are of one kind, and can be told from none
/// when they are shown.
pub open spec fn imports_shown(imports: Seq<ImportModel>, hashed: bool) -> bool {
    forall|i: int| 0 <= i < imports.len() ==> import_shown(#[trigger] imports[i], hashed)
}

/// Whether a package and what it is rebuilt from belong together.
pub open spec fn fits(sc: Scene, source: Source, q: Package) -> bool {
    &&& source.package == sc.package
    &&& alike(sc.package, q)
    &&& base64_kept(sc.package.bytes)
    &&& imports_shown(sc.package.imports, source.hashed)
}

// ---------------------------------------------------------------------------
// Plain values
// ---------------------------------------------------------------------------

pub proof fn lemma_stored(t: Seq<char>, storage: Seq<char>, content: Seq<char>)
    ensures
        plain(redpackage_reader::stored(t, storage, content)),
        redpackage_pools::text_member(
            redpackage_reader::stored(t, storage, content),
            "$value"@,
        ) == Some(content),
        redpackage_pools::text_member(
            redpackage_reader::stored(t, storage, content),
            "$storage"@,
        ) == Some(storage),
{
    reveal_strlit("$value");
    reveal_strlit("$storage");
    reveal_strlit("$package_handle");
    assert("$value"@.len() == 6 && "$storage"@.len() == 8 && "$package_handle"@.len() == 15);
    let none = redpackage_reader::none();
    let first = entries::put(none, "$type"@, Model::Text(t));
    let second = entries::put(first, "$storage"@, Model::Text(storage));
    let third = entries::put(second, "$value"@, Model::Text(content));
    entries::law_put_rising(none, "$type"@, Model::Text(t));
    entries::law_put_rising(first, "$storage"@, Model::Text(storage));
    entries::law_find_put(first, "$storage"@, Model::Text(storage));
    entries::law_find_put(second, "$value"@, Model::Text(content));
    entries::law_find_other(second, "$value"@, Model::Text(content), "$storage"@);
    redpackage_expansion_laws::lemma_put_plain(none, "$type"@, Model::Text(t));
    redpackage_expansion_laws::lemma_put_plain(first, "$storage"@, Model::Text(storage));
    redpackage_expansion_laws::lemma_put_plain(second, "$value"@, Model::Text(content));
    redpackage_expansion_laws::lemma_no_handle(third, "$value"@);
}

pub proof fn lemma_localized(unknown: Seq<char>, content: Seq<char>)
    ensures
        plain(redpackage_reader::localized(unknown, content)),
        redpackage_pools::text_member(
            redpackage_reader::localized(unknown, content),
            "unk1"@,
        ) == Some(unknown),
        redpackage_pools::text_member(
            redpackage_reader::localized(unknown, content),
            "value"@,
        ) == Some(content),
{
    reveal_strlit("unk1");
    reveal_strlit("value");
    reveal_strlit("$package_handle");
    assert("unk1"@.len() == 4 && "value"@.len() == 5 && "$package_handle"@.len() == 15);
    let none = redpackage_reader::none();
    let first = entries::put(none, "unk1"@, Model::Text(unknown));
    let second = entries::put(first, "value"@, Model::Text(content));
    entries::law_put_rising(none, "unk1"@, Model::Text(unknown));
    entries::law_find_put(none, "unk1"@, Model::Text(unknown));
    entries::law_find_put(first, "value"@, Model::Text(content));
    entries::law_find_other(first, "value"@, Model::Text(content), "unk1"@);
    redpackage_expansion_laws::lemma_put_plain(none, "unk1"@, Model::Text(unknown));
    redpackage_expansion_laws::lemma_put_plain(first, "value"@, Model::Text(content));
    redpackage_expansion_laws::lemma_no_handle(second, "value"@);
}

pub proof fn lemma_inner_buffer(content: Seq<char>)
    ensures
        plain(redpackage_reader::inner_buffer(content)),
        redpackage_pools::text_member(redpackage_reader::inner_buffer(content), "Bytes"@) == Some(
            content,
        ),
{
    reveal_strlit("Bytes");
    reveal_strlit("$package_handle");
    assert("Bytes"@.len() == 5 && "$package_handle"@.len() == 15);
    let none = redpackage_reader::none();
    let id = Model::Text("-1"@);
    let flags = value::integer(0);
    let first = entries::put(none, "BufferId"@, id);
    let second = entries::put(first, "Flags"@, flags);
    let third = entries::put(second, "Bytes"@, Model::Text(content));
    entries::law_put_rising(none, "BufferId"@, id);
    entries::law_put_rising(first, "Flags"@, flags);
    entries::law_find_put(second, "Bytes"@, Model::Text(content));
    redpackage_expansion_laws::lemma_put_plain(none, "BufferId"@, id);
    redpackage_expansion_laws::lemma_put_plain(first, "Flags"@, flags);
    redpackage_expansion_laws::lemma_put_plain(second, "Bytes"@, Model::Text(content));
    redpackage_expansion_laws::lemma_no_handle(third, "Bytes"@);
}

pub proof fn lemma_reference(storage: Seq<char>, path: Seq<char>, flags: Seq<char>)
    ensures
        plain(redpackage_reader::reference(storage, path, flags)),
        ({
            let m = redpackage_reader::reference(storage, path, flags);
            &&& redpackage_encoder::inner_text(m, "DepotPath"@, "$value"@) == Some(path)
            &&& redpackage_encoder::inner_text(m, "DepotPath"@, "$storage"@) == Some(storage)
            &&& redpackage_pools::text_member(m, "Flags"@) == Some(flags)
        }),
{
    reveal_strlit("DepotPath");
    reveal_strlit("Flags");
    reveal_strlit("$package_handle");
    assert("DepotPath"@.len() == 9 && "Flags"@.len() == 5 && "$package_handle"@.len() == 15);
    let none = redpackage_reader::none();
    let depot = redpackage_reader::stored("ResourcePath"@, storage, path);
    lemma_stored("ResourcePath"@, storage, path);
    let first = entries::put(none, "DepotPath"@, depot);
    let second = entries::put(first, "Flags"@, Model::Text(flags));
    entries::law_put_rising(none, "DepotPath"@, depot);
    entries::law_find_put(none, "DepotPath"@, depot);
    entries::law_find_put(first, "Flags"@, Model::Text(flags));
    entries::law_find_other(first, "Flags"@, Model::Text(flags), "DepotPath"@);
    redpackage_expansion_laws::lemma_put_plain(none, "DepotPath"@, depot);
    redpackage_expansion_laws::lemma_put_plain(first, "Flags"@, Model::Text(flags));
    redpackage_expansion_laws::lemma_no_handle(second, "Flags"@);
}

// ---------------------------------------------------------------------------
// Names
// ---------------------------------------------------------------------------

/// A name that is there is known.
pub proof fn lemma_known_name(names: Seq<Seq<char>>, i: int)
    requires
        0 <= i < names.len(),
    ensures
        redpackage_pools::last_name(names, names[i]) is Some,
    decreases names.len(),
{
    if i < names.len() - 1 && names.last() != names[i] {
        lemma_known_name(names.drop_last(), i);
        assert(names.drop_last()[i] == names[i]);
    }
}

/// The index of a name that is there is written, and leads to it.
pub proof fn lemma_written_name(sc: Scene, state: State, q: Package, i: nat, at: nat)
    requires
        kept(sc, state),
        alike(sc.package, q),
        i < sc.package.names.len(),
        redpackage_pools::with_name(state, sc.package.names[i as int]) is Ok,
        ({
            let index = redpackage_pools::with_name(state, sc.package.names[i as int])->Ok_0.0;
            sequence::stands(q.bytes, at, binary::le_bytes(index, 2))
        }),
    ensures
        redpackage_pools::with_name(state, sc.package.names[i as int])->Ok_0.1 == state,
        redpackage_reader::name_there(q, at, at) == Ok::<Seq<char>, Fault>(
            sc.package.names[i as int],
        ),
        redpackage::number(q.bytes, at, 2) is Ok,
        redpackage::number(q.bytes, at, 2)->Ok_0 < q.names.len(),
        q.names[redpackage::number(q.bytes, at, 2)->Ok_0 as int] == sc.package.names[i as int],
{
    lemma_known_name(sc.package.names, i as int);
    assert(q.names.subrange(0, q.names.len() as int) =~= q.names);
    redpackage_leaf_laws::law_name_read(q, state, sc.package.names[i as int], at);
}

proof fn lemma_comma(content: Seq<char>, name: Seq<char>, rest: Seq<char>)
    requires
        content == name + ", "@ + rest,
        !has_comma(name),
    ensures
        redpackage_json::comma(content) == name.len(),
    decreases name.len(),
{
    reveal_strlit(", ");
    assert(", "@.len() == 2 && ", "@[0] == ',' && ", "@[1] == ' ');
    if name.len() == 0 {
        assert(content[0] == ',' && content[1] == ' ');
    } else {
        let shorter = name.drop_first();
        assert(content.drop_first() =~= shorter + ", "@ + rest);
        assert(content[0] == name[0]);
        if content[0] == ',' && content[1] == ' ' {
            if name.len() > 1 {
                assert(content[1] == name[1]);
                assert(has_comma(name));
            } else {
                assert(content[1] == ',');
            }
        }
        if has_comma(shorter) {
            let i = choose|i: int|
                0 <= i < shorter.len() - 1 && #[trigger] shorter[i] == ',' && shorter[i + 1] == ' ';
            assert(name[i + 1] == ',' && name[i + 2] == ' ');
        }
        lemma_comma(content.drop_first(), shorter, rest);
    }
}

proof fn lemma_no_comma(name: Seq<char>)
    requires
        !has_comma(name),
    ensures
        redpackage_json::comma(name) + 1 >= name.len(),
    decreases name.len(),
{
    if name.len() >= 2 {
        let shorter = name.drop_first();
        assert(!(name[0] == ',' && name[1] == ' '));
        if has_comma(shorter) {
            let i = choose|i: int|
                0 <= i < shorter.len() - 1 && #[trigger] shorter[i] == ',' && shorter[i + 1] == ' ';
            assert(name[i + 1] == ',' && name[i + 2] == ' ');
        }
        lemma_no_comma(shorter);
    }
}

proof fn lemma_joined_front(names: Seq<Seq<char>>)
    requires
        names.len() > 1,
    ensures
        redpackage_reader::joined(names) == names[0] + ", "@ + redpackage_reader::joined(
            names.drop_first(),
        ),
    decreases names.len(),
{
    let rest = names.drop_first();
    if names.len() == 2 {
        assert(names.drop_last().len() == 1);
        assert(redpackage_reader::joined(names.drop_last()) == names[0]);
        assert(redpackage_reader::joined(rest) == names[1]);
    } else {
        lemma_joined_front(names.drop_last());
        assert(names.drop_last().drop_first() =~= rest.drop_last());
        assert(redpackage_reader::joined(names) =~= names[0] + ", "@ + redpackage_reader::joined(
            rest,
        ));
    }
}

/// Names that were joined are told apart again.
proof fn lemma_names_in(names: Seq<Seq<char>>)
    requires
        listable(names),
    ensures
        redpackage_json::names_in(redpackage_reader::joined(names)) == names,
        names.len() > 0 ==> redpackage_reader::joined(names).len() > 0,
    decreases names.len(),
{
    let content = redpackage_reader::joined(names);
    if names.len() == 0 {
        assert(redpackage_json::names_in(content) =~= names);
    } else if names.len() == 1 {
        assert(names[0].len() > 0 && !has_comma(names[0]));
        lemma_no_comma(content);
        assert(redpackage_json::names_in(content) =~= names);
    } else {
        let rest = names.drop_first();
        assert forall|i: int| 0 <= i < rest.len() implies (#[trigger] rest[i]).len() > 0
            && !has_comma(rest[i]) by {
            assert(rest[i] == names[i + 1]);
        }
        lemma_names_in(rest);
        lemma_joined_front(names);
        assert(names[0].len() > 0 && !has_comma(names[0]));
        let after = redpackage_reader::joined(rest);
        lemma_comma(content, names[0], after);
        reveal_strlit(", ");
        assert(", "@.len() == 2);
        let at = names[0].len() as int;
        assert(content.subrange(at + 2, content.len() as int) =~= after);
        assert(content.subrange(0, at) =~= names[0]);
        assert(seq![names[0]] + rest =~= names);
    }
}

/// The names of a bit field are names of the package.
proof fn lemma_flags_known(p: Package, at: nat, left: nat, offset: nat, found: Seq<Seq<char>>)
    ensures
        redpackage_reader::flag_names(p, at, left, offset, found) matches Ok(names) ==> names.len()
            == found.len() + left && names.subrange(0, found.len() as int) == found && forall|k: int|
            found.len() <= k < names.len() ==> p.names.contains(#[trigger] names[k]),
    decreases left,
{
    if left == 0 {
        assert(found.subrange(0, found.len() as int) =~= found);
    } else {
        match redpackage_reader::name_there(p, at, offset) {
            Err(_) => {},
            Ok(name) => {
                let next = found.push(name);
                lemma_flags_known(p, at + 2, (left - 1) as nat, offset, next);
                match redpackage_reader::flag_names(p, at + 2, (left - 1) as nat, offset, next) {
                    Err(_) => {},
                    Ok(names) => {
                        assert forall|k: int| 0 <= k < found.len() implies names[k] == found[k] by {
                            assert(names.subrange(0, next.len() as int)[k] == next[k]);
                        }
                        assert(names.subrange(0, found.len() as int) =~= found);
                        assert(names.subrange(0, next.len() as int)[found.len() as int] == name);
                        let index = redpackage::number(p.bytes, at, 2)->Ok_0;
                        assert(p.names[index as int] == name);
                    },
                }
            },
        }
    }
}

/// The names of a bit field are written, and read back.
proof fn lemma_written_flags(
    sc: Scene,
    state: State,
    q: Package,
    names: Seq<Seq<char>>,
    i: nat,
    bytes: Seq<u8>,
    at: nat,
    written: Seq<u8>,
    after: State,
)
    requires
        kept(sc, state),
        alike(sc.package, q),
        i <= names.len(),
        bytes.len() == 1 + 2 * i,
        forall|k: int| 0 <= k < names.len() ==> sc.package.names.contains(#[trigger] names[k]),
        redpackage_encoder::written_names(state, names, i, bytes) == Ok::<(Seq<u8>, State), Fault>(
            (written, after),
        ),
        sequence::stands(q.bytes, at, written),
    ensures
        after == state,
        written.len() == 1 + 2 * names.len(),
        written.subrange(0, bytes.len() as int) == bytes,
        redpackage_reader::flag_names(
            q,
            at + 1 + 2 * i,
            (names.len() - i) as nat,
            at,
            names.subrange(0, i as int),
        ) == Ok::<Seq<Seq<char>>, Fault>(names),
    decreases names.len() - i,
{
    if i == names.len() {
        assert(bytes.subrange(0, bytes.len() as int) =~= bytes);
        assert(names.subrange(0, i as int) =~= names);
    } else {
        let name = names[i as int];
        let k = choose|k: int| 0 <= k < sc.package.names.len() && sc.package.names[k] == name;
        let (index, next) = redpackage_pools::with_name(state, name)->Ok_0;
        lemma_known_name(sc.package.names, k);
        let more = bytes + binary::le_bytes(index, 2);
        binary::lemma_le_bytes_len(index, 2);
        lemma_written_flags(sc, state, q, names, i + 1, more, at, written, after);
        let spot = at + 1 + 2 * i;
        assert(sequence::stands(q.bytes, spot, binary::le_bytes(index, 2))) by {
            assert(written.subrange(bytes.len() as int, (bytes.len() + 2) as int)
                =~= binary::le_bytes(index, 2)) by {
                assert forall|j: int| 0 <= j < 2 implies written[bytes.len() + j]
                    == binary::le_bytes(index, 2)[j] by {
                    assert(written.subrange(0, more.len() as int)[bytes.len() + j]
                        == more[bytes.len() + j]);
                }
            }
            sequence::lemma_stands_within(
                q.bytes,
                at,
                written,
                bytes.len(),
                binary::le_bytes(index, 2),
            );
        }
        lemma_written_name(sc, state, q, k as nat, spot);
        assert(written.subrange(0, bytes.len() as int) =~= bytes) by {
            assert forall|j: int| 0 <= j < bytes.len() implies written[j] == bytes[j] by {
                assert(written.subrange(0, more.len() as int)[j] == more[j]);
            }
        }
        assert(names.subrange(0, i as int).push(name) =~= names.subrange(0, (i + 1) as int));
    }
}

// ---------------------------------------------------------------------------
// Leaves
// ---------------------------------------------------------------------------

pub proof fn lemma_kept_other(
    sc: Scene,
    state: State,
    q: Package,
    t: Seq<char>,
    start: nat,
    limit: nat,
    m: Model,
    at: nat,
    written: Seq<u8>,
    behind: nat,
    after: State,
)
    requires
        kept(sc, state),
        alike(sc.package, q),
        redpackage_layout_laws::is_other(t),
        redpackage_layout_laws::leaf_in_order(sc.package, t, start, limit),
        redpackage_reader::other_leaf(sc.package, t, start, limit) == Ok::<(Model, nat), Fault>(
            (m, limit),
        ),
        redpackage_encoder::other_bytes(state, t, m, start, limit) == Ok::<
            (Seq<u8>, nat, State),
            Fault,
        >((written, behind, after)),
        sequence::stands(q.bytes, at, written),
    ensures
        after == state,
        behind == limit,
        written.len() > 0,
        redpackage_reader::other_leaf(q, t, at, at + written.len()) == Ok::<(Model, nat), Fault>(
            (m, at + written.len()),
        ),
{
    let p = sc.package;
    if limit == start + 2 {
        let index = redpackage::number(p.bytes, start, 2)->Ok_0;
        let name = p.names[index as int];
        binary::lemma_le_bytes_len(redpackage_pools::with_name(state, name)->Ok_0.0, 2);
        lemma_written_name(sc, state, q, index, at);
    } else {
        let count = redpackage::byte_at(p.bytes, start)->Ok_0;
        let names = redpackage_reader::flag_names(p, start + 1, count, start, Seq::empty())->Ok_0;
        lemma_flags_known(p, start + 1, count, start, Seq::empty());
        lemma_names_in(names);
        let first = seq![names.len() as u8];
        lemma_written_flags(sc, state, q, names, 0, first, at, written, after);
        assert(written[0] == first[0]) by {
            assert(written.subrange(0, 1)[0] == first[0]);
        }
        sequence::lemma_stands_index(q.bytes, at, written, 0);
        assert(names.subrange(0, 0) =~= Seq::<Seq<char>>::empty());
    }
}

pub proof fn lemma_kept_handle(
    sc: Scene,
    source: Source,
    state: State,
    q: Package,
    x: Model,
    path: Seq<nat>,
    start: nat,
    n: int,
    e: nat,
    at: nat,
    written: Seq<u8>,
    behind: nat,
    after: State,
)
    requires
        kept(sc, state),
        source.package == sc.package,
        alike(sc.package, q),
        path.len() >= 1,
        lookup(sc.values, path) == Some(x),
        redpackage_reader::handle_pointer(sc.package, start) == Ok::<(int, nat), Fault>((n, e)),
        shows(x, redpackage_state_laws::handle_value(n), sc.flat, sc.base),
        avoids(redpackage_state_laws::handle_value(n), sc.roots),
        redpackage_encoder::handle_bytes(source, state, x, path, start) == Ok::<
            (Seq<u8>, nat, State),
            Fault,
        >((written, behind, after)),
        sequence::stands(q.bytes, at, written),
    ensures
        kept(sc, after),
        behind == e,
        written.len() > 0,
        redpackage_reader::handle_pointer(q, at) is Ok,
        redpackage_reader::handle_pointer(q, at)->Ok_0.1 == at + written.len(),
        redpackage_state_laws::handle_value(redpackage_reader::handle_pointer(q, at)->Ok_0.0)
            == redpackage_state_laws::handle_value(n),
{
    binary::lemma_byte_ranges();
    let p = sc.package;
    if p.version == 2 {
        binary::law_write_read(p.bytes.subrange(start as int, (start + 2) as int));
    } else {
        binary::law_write_read(p.bytes.subrange(start as int, (start + 4) as int));
    }
    let (pointer, next) = redpackage_pools::resolved(source, state, x, path, n, start)->Ok_0;
    redpackage_state_laws::lemma_resolved(sc, source, state, x, path, n, start, pointer, next);
    if p.version == 2 {
        let bits = redpackage_json::wrapped(pointer, 2);
        binary::lemma_le_bytes_len(bits, 2);
        binary::lemma_number_stands(q.bytes, at, bits, 2);
    } else {
        let bits = redpackage_json::wrapped(pointer, 4);
        binary::lemma_le_bytes_len(bits, 4);
        binary::lemma_number_stands(q.bytes, at, bits, 4);
    }
}

pub proof fn lemma_kept_buffer(
    sc: Scene,
    source: Source,
    state: State,
    q: Package,
    start: nat,
    limit: nat,
    m: Model,
    e: nat,
    at: nat,
    limit2: nat,
    written: Seq<u8>,
    behind: nat,
    after: State,
)
    requires
        fits(sc, source, q),
        redpackage_reader::buffer_leaf(sc.package, start, limit) == Ok::<(Model, nat), Fault>(
            (m, e),
        ),
        redpackage_encoder::buffer_bytes(source, state, m, start) == Ok::<
            (Seq<u8>, nat, State),
            Fault,
        >((written, behind, after)),
        sequence::stands(q.bytes, at, written),
        at + written.len() <= limit2,
    ensures
        after == state,
        behind >= e,
        written.len() > 0,
        redpackage_reader::buffer_leaf(q, at, limit2) == Ok::<(Model, nat), Fault>(
            (m, at + written.len()),
        ),
{
    let p = sc.package;
    let length = redpackage::number(p.bytes, start, 4)->Ok_0;
    let (content, bytes) = if length == 0x8000_0000 {
        (""@, Seq::<u8>::empty())
    } else {
        let part = p.bytes.subrange(start as int + 4, (start + 4 + length) as int);
        (text::base64_text(part), part)
    };
    reveal_strlit("");
    assert(""@ =~= Seq::<char>::empty());
    lemma_inner_buffer(content);
    if length == 0x8000_0000 {
        assert(p.bytes.subrange(0, 0) =~= bytes);
        assert(text::base64_bytes(text::base64_text(p.bytes.subrange(0, 0))) == Some(
            p.bytes.subrange(0, 0),
        ));
    }
    assert(text::base64_bytes(content) == Some(bytes));
    binary::lemma_byte_ranges();
    let head = binary::le_bytes(bytes.len(), 4);
    binary::lemma_le_bytes_len(bytes.len(), 4);
    sequence::lemma_stands_split(q.bytes, at, head, bytes);
    binary::lemma_number_stands(q.bytes, at, bytes.len(), 4);
    assert(q.bytes.subrange(at as int + 4, (at + 4 + bytes.len()) as int) =~= bytes);
}

proof fn lemma_same_import(imports: Seq<ImportModel>, hashed: bool, a: int, b: int)
    requires
        imports_shown(imports, hashed),
        0 <= a < imports.len(),
        0 <= b < imports.len(),
        redpackage_state_laws::shown_path(imports[a]) == redpackage_state_laws::shown_path(
            imports[b],
        ),
        imports[a].soft == imports[b].soft,
    ensures
        forall|p: Package, q: Package, i: nat, j: nat|
            p.imports == imports && q.imports == imports ==> #[trigger]
                redpackage_reader::import_reference(p, a, i) == #[trigger]
                redpackage_reader::import_reference(q, b, j),
{
    assert(import_shown(imports[a], hashed));
    assert(import_shown(imports[b], hashed));
}

proof fn lemma_known_import(
    imports: Seq<ImportModel>,
    known: Seq<(Seq<char>, bool, nat)>,
    path: Seq<char>,
    soft: bool,
)
    requires
        forall|i: int|
            0 <= i < known.len() ==> redpackage_state_laws::import_kept(
                imports,
                #[trigger] known[i],
            ),
    ensures
        redpackage_pools::known_import(known, path, soft) matches Some(index) ==>
            redpackage_state_laws::import_kept(imports, (path, soft, index)),
    decreases known.len(),
{
    if known.len() > 0 {
        let front = known.drop_last();
        assert forall|i: int| 0 <= i < front.len() implies redpackage_state_laws::import_kept(
            imports,
            #[trigger] front[i],
        ) by {
            assert(front[i] == known[i]);
        }
        assert(redpackage_state_laws::import_kept(imports, known[known.len() - 1]));
        lemma_known_import(imports, front, path, soft);
    }
}

proof fn lemma_stored_import(
    imports: Seq<ImportModel>,
    i: nat,
    path: Seq<char>,
    hash: u64,
    soft: bool,
    own: nat,
)
    requires
        i <= own < imports.len(),
        redpackage_pools::leads_to(imports[own as int], path, hash, soft),
    ensures
        redpackage_pools::stored_import(imports, i, path, hash, soft) is Some,
        redpackage_pools::stored_import(imports, i, path, hash, soft)->0 < imports.len(),
        redpackage_pools::leads_to(
            imports[redpackage_pools::stored_import(imports, i, path, hash, soft)->0 as int],
            path,
            hash,
            soft,
        ),
    decreases own - i,
{
    if !redpackage_pools::leads_to(imports[i as int], path, hash, soft) {
        lemma_stored_import(imports, i + 1, path, hash, soft, own);
    }
}

pub proof fn lemma_kept_reference(
    sc: Scene,
    source: Source,
    state: State,
    q: Package,
    start: nat,
    index: int,
    m: Model,
    at: nat,
    written: Seq<u8>,
    behind: nat,
    after: State,
)
    requires
        kept(sc, state),
        fits(sc, source, q),
        redpackage_reader::import_reference(sc.package, index, start) == Ok::<Model, Fault>(m),
        redpackage_encoder::reference_bytes(source, state, m, start) == Ok::<
            (Seq<u8>, nat, State),
            Fault,
        >((written, behind, after)),
        sequence::stands(q.bytes, at, written),
    ensures
        kept(sc, after),
        behind == start + 2,
        written.len() == 2,
        redpackage::short(q.bytes, at) is Ok,
        redpackage_reader::import_reference(q, redpackage::short(q.bytes, at)->Ok_0, at) == Ok::<
            Model,
            Fault,
        >(m),
{
    binary::lemma_byte_ranges();
    reveal_strlit("0");
    reveal_strlit("Soft");
    reveal_strlit("Default");
    reveal_strlit("uint64");
    reveal_strlit("string");
    assert("Soft"@.len() == 4 && "Default"@.len() == 7);
    assert("uint64"@[0] == 'u' && "string"@[0] == 's');
    let zero = number_text::decimal(0);
    assert(zero =~= "0"@);
    let imports = sc.package.imports;
    binary::lemma_le_bytes_len(0xffff, 2);
    if index < 0 {
        lemma_reference("uint64"@, "0"@, "Default"@);
        binary::lemma_number_stands(q.bytes, at, 0xffff, 2);
    } else {
        let import = imports[index];
        assert(import_shown(import, source.hashed));
        let flags = if import.soft {
            "Soft"@
        } else {
            "Default"@
        };
        let path = redpackage_state_laws::shown_path(import);
        let (storage, explicit) = match import.path {
            PathModel::Text(_) => ("string"@, None::<nat>),
            PathModel::Hash(hash) => ("uint64"@, Some(hash as nat)),
        };
        lemma_reference(storage, path, flags);
        if import.path is Hash {
            number_text::law_parse_decimal(import.path->Hash_0 as nat, u64::MAX as nat);
            if path == "0"@ {
                redpackage_state_laws::lemma_decimal_same(import.path->Hash_0 as nat, 0);
            }
        }
        if path == "0"@ {
            binary::lemma_number_stands(q.bytes, at, 0xffff, 2);
        } else {
            let hash = match explicit {
                Some(hash) => hash as u64,
                None => crate::archive::depot_hash(path),
            };
            assert(redpackage_pools::leads_to(import, path, hash, import.soft));
            lemma_known_import(imports, state.known, path, import.soft);
            lemma_stored_import(imports, 0, path, hash, import.soft, index as nat);
            let (found, next) = redpackage_pools::with_import(
                source,
                state,
                path,
                explicit,
                import.soft,
            )->Ok_0;
            assert(redpackage_state_laws::import_kept(imports, (path, import.soft, found))) by {
                if redpackage_pools::known_import(state.known, path, import.soft) is None {
                    assert(import_shown(imports[found as int], source.hashed));
                }
            }
            assert(kept(sc, next)) by {
                assert forall|i: int| 0 <= i < next.known.len() implies
                    redpackage_state_laws::import_kept(imports, #[trigger] next.known[i]) by {
                    if i < state.known.len() {
                        assert(next.known[i] == state.known[i]);
                    }
                }
            }
            binary::lemma_le_bytes_len(found, 2);
            binary::lemma_number_stands(q.bytes, at, found, 2);
            lemma_same_import(imports, source.hashed, index, found as int);
            assert(redpackage_reader::import_reference(sc.package, index, start)
                == redpackage_reader::import_reference(q, found as int, at));
        }
    }
}

} // verus!
