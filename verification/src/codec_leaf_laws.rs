//! What the values of a resource that hold no others are.

use crate::binary;
use crate::codec;
use crate::codec_reader;
use crate::codec_reader::{Fault, Resource};
use crate::entries;
use crate::number_text;
use crate::object_laws;
use crate::object_laws::{has_fields, said};
use crate::red_types;
use crate::text;
use crate::value;
use vstd::prelude::*;

verus! {

// ---------------------------------------------------------------------------
// Numbers in bytes
// ---------------------------------------------------------------------------

/// A number of two bytes, the low one first.
pub open spec fn two(bytes: Seq<u8>, at: nat) -> nat {
    bytes[at as int] as nat + 0x100 * bytes[at as int + 1] as nat
}

/// A number of four bytes, the low one first.
pub open spec fn four(bytes: Seq<u8>, at: nat) -> nat {
    two(bytes, at) + 0x1_0000 * two(bytes, at + 2)
}

/// A number of eight bytes, the low one first.
pub open spec fn eight(bytes: Seq<u8>, at: nat) -> nat {
    four(bytes, at) + 0x1_0000_0000 * four(bytes, at + 4)
}

/// A number of some bits as one with a sign.
pub open spec fn with_sign(value: nat, half: nat) -> int {
    if value < half {
        value as int
    } else {
        value - 2 * half
    }
}

/// An integer as a value.
pub open spec fn whole(n: int) -> value::Model {
    value::Model::Number(
        value::Number { integer: Some(n as i128), single: None, double: None },
    )
}

/// The numbers that stand at an offset.
pub proof fn lemma_numbers(bytes: Seq<u8>, at: nat)
    ensures
        at + 2 <= bytes.len() ==> binary::number_at(bytes, at, 2) == Some(two(bytes, at)) && two(
            bytes,
            at,
        ) <= 0xffff,
        at + 4 <= bytes.len() ==> binary::number_at(bytes, at, 4) == Some(four(bytes, at)) && four(
            bytes,
            at,
        ) <= 0xffff_ffff,
        at + 8 <= bytes.len() ==> binary::number_at(bytes, at, 8) == Some(eight(bytes, at))
            && eight(bytes, at) <= 0xffff_ffff_ffff_ffff,
{
    lemma_two(bytes, at);
    lemma_four(bytes, at);
    if at + 8 <= bytes.len() {
        let part = bytes.subrange(at as int, at as int + 8);
        let high = part.subrange(4, 8);
        lemma_four(bytes, at + 4);
        reveal_with_fuel(binary::le_value, 5);
        let d1 = part.drop_first();
        let d2 = d1.drop_first();
        let d3 = d2.drop_first();
        let d4 = d3.drop_first();
        assert(d4 =~= bytes.subrange(at as int + 4, at as int + 8));
        assert(binary::le_value(part) == part[0] as nat + 256 * binary::le_value(d1));
        assert(binary::le_value(d1) == d1[0] as nat + 256 * binary::le_value(d2));
        assert(binary::le_value(d2) == d2[0] as nat + 256 * binary::le_value(d3));
        assert(binary::le_value(d3) == d3[0] as nat + 256 * binary::le_value(d4));
    }
}

proof fn lemma_two(bytes: Seq<u8>, at: nat)
    ensures
        at + 2 <= bytes.len() ==> binary::number_at(bytes, at, 2) == Some(two(bytes, at)) && two(
            bytes,
            at,
        ) <= 0xffff,
{
    if at + 2 <= bytes.len() {
        let part = bytes.subrange(at as int, at as int + 2);
        let d1 = part.drop_first();
        let d2 = d1.drop_first();
        assert(d2.len() == 0);
        assert(binary::le_value(part) == part[0] as nat + 256 * binary::le_value(d1));
        assert(binary::le_value(d1) == d1[0] as nat + 256 * binary::le_value(d2));
        assert(binary::le_value(d2) == 0);
    }
}

proof fn lemma_four(bytes: Seq<u8>, at: nat)
    ensures
        at + 4 <= bytes.len() ==> binary::number_at(bytes, at, 4) == Some(four(bytes, at)) && four(
            bytes,
            at,
        ) <= 0xffff_ffff,
{
    if at + 4 <= bytes.len() {
        let part = bytes.subrange(at as int, at as int + 4);
        let d1 = part.drop_first();
        let d2 = d1.drop_first();
        lemma_two(bytes, at + 2);
        assert(d2 =~= bytes.subrange(at as int + 2, at as int + 4));
        assert(binary::le_value(part) == part[0] as nat + 256 * binary::le_value(d1));
        assert(binary::le_value(d1) == d1[0] as nat + 256 * binary::le_value(d2));
    }
}

// ---------------------------------------------------------------------------
// Objects
// ---------------------------------------------------------------------------

/// Whether a value is a text with how it is stored.
pub open spec fn is_stored(
    m: value::Model,
    t: Seq<char>,
    storage: Seq<char>,
    content: Seq<char>,
) -> bool {
    has_fields(
        m,
        seq![
            ("$type"@, said(t)),
            ("$storage"@, said(storage)),
            ("$value"@, said(content)),
        ],
    )
}

pub proof fn lemma_stored(t: Seq<char>, storage: Seq<char>, content: Seq<char>)
    ensures
        is_stored(
            crate::redpackage_reader::stored(t, storage, content),
            t,
            storage,
            content,
        ),
{
    reveal_strlit("$type");
    reveal_strlit("$storage");
    reveal_strlit("$value");
    let l0 = Seq::<(Seq<char>, value::Model)>::empty();
    let l1 = l0.push(("$type"@, said(t)));
    let l2 = l1.push(("$storage"@, said(storage)));
    let e1 = entries::put(l0, "$type"@, said(t));
    let e2 = entries::put(e1, "$storage"@, said(storage));
    assert("$type"@.len() == 5);
    assert("$storage"@.len() == 8);
    assert("$value"@.len() == 6);
    object_laws::lemma_none::<value::Model>();
    object_laws::lemma_with(l0, l0, "$type"@, said(t));
    object_laws::lemma_with(e1, l1, "$storage"@, said(storage));
    object_laws::lemma_with(e2, l2, "$value"@, said(content));
    assert(l2.push(("$value"@, said(content))) =~= seq![
        ("$type"@, said(t)),
        ("$storage"@, said(storage)),
        ("$value"@, said(content)),
    ]);
}

/// An object of two fields.
pub proof fn lemma_pair(a: Seq<char>, x: value::Model, b: Seq<char>, y: value::Model)
    requires
        a != b,
    ensures
        has_fields(
            value::Model::Object(entries::put(entries::put(Seq::empty(), a, x), b, y)),
            seq![(a, x), (b, y)],
        ),
{
    let l0 = Seq::<(Seq<char>, value::Model)>::empty();
    let l1 = l0.push((a, x));
    let e1 = entries::put(l0, a, x);
    object_laws::lemma_none::<value::Model>();
    object_laws::lemma_with(l0, l0, a, x);
    object_laws::lemma_with(e1, l1, b, y);
    assert(l1.push((b, y)) =~= seq![(a, x), (b, y)]);
}

/// An object of three fields.
pub proof fn lemma_triple(
    a: Seq<char>,
    x: value::Model,
    b: Seq<char>,
    y: value::Model,
    c: Seq<char>,
    z: value::Model,
)
    requires
        a != b,
        a != c,
        b != c,
    ensures
        has_fields(
            value::Model::Object(
                entries::put(entries::put(entries::put(Seq::empty(), a, x), b, y), c, z),
            ),
            seq![(a, x), (b, y), (c, z)],
        ),
{
    let l0 = Seq::<(Seq<char>, value::Model)>::empty();
    let l1 = l0.push((a, x));
    let l2 = l1.push((b, y));
    let e1 = entries::put(l0, a, x);
    let e2 = entries::put(e1, b, y);
    object_laws::lemma_none::<value::Model>();
    object_laws::lemma_with(l0, l0, a, x);
    object_laws::lemma_with(e1, l1, b, y);
    object_laws::lemma_with(e2, l2, c, z);
    assert(l2.push((c, z)) =~= seq![(a, x), (b, y), (c, z)]);
}

// ---------------------------------------------------------------------------
// References
// ---------------------------------------------------------------------------

/// Whether a type is that of references to other resources.
pub open spec fn refers(t: Seq<char>) -> bool {
    ||| t.len() >= 5 && t[0] == 'r' && t[1] == 'R' && t[2] == 'e' && t[3] == 'f' && t[4] == ':'
    ||| t.len() >= 6 && t[0] == 'r' && t[1] == 'a' && t[2] == 'R' && t[3] == 'e' && t[4] == 'f'
        && t[5] == ':'
}

/// Whether a value is a reference to a path.
pub open spec fn is_reference(
    m: value::Model,
    storage: Seq<char>,
    path: Seq<char>,
    flags: Seq<char>,
) -> bool {
    match m {
        value::Model::Object(fields) => match entries::find(fields, "DepotPath"@) {
            Some(depot) => is_stored(depot, "ResourcePath"@, storage, path) && has_fields(
                m,
                seq![("DepotPath"@, depot), ("Flags"@, said(flags))],
            ),
            None => false,
        },
        _ => false,
    }
}

/// The name of the flags of an import.
pub open spec fn flags_text(flags: u16) -> Seq<char> {
    match flags {
        1 => "Obligatory"@,
        2 => "Template"@,
        4 => "Soft"@,
        8 => "Embedded"@,
        16 => "Inplace"@,
        _ => "Default"@,
    }
}

/// No type that is known by name has a colon.
pub proof fn lemma_array_unnamed(t: Seq<char>)
    requires
        t.len() >= 6,
        t[0] == 'a',
        t[5] == ':',
    ensures
        !codec_reader::named(t),
        !red_types::opaque_data(t),
{
    lemma_named_letters(t);
    reveal_strlit("Variant");
    reveal_strlit("AITrafficWorkspotCompiled");
    reveal_strlit("animAnimationBufferCompressed");
    reveal_strlit("gameCompiledSmartObjectData");
    reveal_strlit("gameSmartObjectAnimationDatabase");
    reveal_strlit("worldCompiledEffectInfo");
    assert("animAnimationBufferCompressed"@[5] == 'n');
}

/// The types that are known by name begin with these letters.
proof fn lemma_named_letters(t: Seq<char>)
    ensures
        codec_reader::named(t) ==> t.len() > 0 && t[0] != 'a' && t[0] != 'r' && t[0] != 'h'
            && t[0] != 'w',
{
    reveal_strlit("Bool");
    reveal_strlit("Uint8");
    reveal_strlit("Int8");
    reveal_strlit("Int16");
    reveal_strlit("Uint16");
    reveal_strlit("Int32");
    reveal_strlit("Uint32");
    reveal_strlit("Int64");
    reveal_strlit("Uint64");
    reveal_strlit("CRUID");
    reveal_strlit("CDateTime");
    reveal_strlit("Float");
    reveal_strlit("Double");
    reveal_strlit("CName");
    reveal_strlit("String");
    reveal_strlit("NodeRef");
    reveal_strlit("TweakDBID");
    reveal_strlit("gamedataLocKeyWrapper");
    reveal_strlit("LocalizationString");
    reveal_strlit("SharedDataBuffer");
    reveal_strlit("DataBuffer");
    reveal_strlit("serializationDeferredDataBuffer");
    reveal_strlit("CGUID");
}

/// References and handles are not among the types of a size by name.
pub proof fn lemma_unsized(t: Seq<char>)
    requires
        refers(t) || handles(t),
    ensures
        codec::type_size(t) == (if handles(t) {
            Some(4nat)
        } else {
            Some(2)
        }),
{
    lemma_named_letters(t);
    reveal_strlit("serializationDeferredDataBuffer");
    reveal_strlit("rRef:");
    reveal_strlit("raRef:");
    reveal_strlit("handle:");
    reveal_strlit("whandle:");
    if handles(t) {
        if t[0] == 'h' {
            assert(t.subrange(0, 7) =~= "handle:"@);
        } else {
            assert(t.subrange(0, 8) =~= "whandle:"@);
        }
    } else {
        lemma_prefix_first(t, "handle:"@);
        lemma_prefix_first(t, "whandle:"@);
        if t[1] == 'R' {
            assert(t.subrange(0, 5) =~= "rRef:"@);
        } else {
            assert(t.subrange(0, 6) =~= "raRef:"@);
        }
    }
}

/// References and handles are known by how they begin.
pub proof fn lemma_marked(t: Seq<char>)
    requires
        refers(t) || handles(t),
    ensures
        !codec_reader::named(t),
        t != "CString"@,
        refers(t) ==> red_types::is_reference(t) && !red_types::is_handle(t),
        handles(t) ==> red_types::is_handle(t),
{
    lemma_named_letters(t);
    reveal_strlit("CString");
    reveal_strlit("rRef:");
    reveal_strlit("raRef:");
    reveal_strlit("handle:");
    reveal_strlit("whandle:");
    lemma_prefix_first(t, "handle:"@);
    lemma_prefix_first(t, "whandle:"@);
    if handles(t) {
        if t[0] == 'h' {
            assert(t.subrange(0, 7) =~= "handle:"@);
        } else {
            assert(t.subrange(0, 8) =~= "whandle:"@);
        }
    } else if t[1] == 'R' {
        assert(t.subrange(0, 5) =~= "rRef:"@);
    } else {
        assert(t.subrange(0, 6) =~= "raRef:"@);
    }
}

/// The types that are known by name begin otherwise than references and handles.
proof fn lemma_unnamed(r: Resource, t: Seq<char>)
    requires
        t.len() >= 5,
        t[0] == 'r' || t[0] == 'h' || t[0] == 'w',
        t[0] == 'w' ==> t[1] == 'h',
    ensures
        !codec_reader::named(t),
        !red_types::opaque_data(t),
        !text::starts_with(t, "multiChannelCurve:"@),
        red_types::rest_after(t, "array:"@) is None,
        red_types::rest_after(t, "static:"@) is None,
        red_types::rest_after(t, "curveData:"@) is None,
{
    lemma_named_letters(t);
    reveal_strlit("Variant");
    reveal_strlit("AITrafficWorkspotCompiled");
    reveal_strlit("animAnimationBufferCompressed");
    reveal_strlit("gameCompiledSmartObjectData");
    reveal_strlit("gameSmartObjectAnimationDatabase");
    reveal_strlit("worldCompiledEffectInfo");
    lemma_prefix_first(t, "multiChannelCurve:"@);
    lemma_prefix_first(t, "array:"@);
    lemma_prefix_first(t, "static:"@);
    lemma_prefix_first(t, "curveData:"@);
    reveal_strlit("multiChannelCurve:");
    reveal_strlit("array:");
    reveal_strlit("static:");
    reveal_strlit("curveData:");
}

proof fn lemma_prefix_first(t: Seq<char>, prefix: Seq<char>)
    ensures
        text::starts_with(t, prefix) && prefix.len() > 0 ==> t.len() > 0 && t[0] == prefix[0],
{
    if text::starts_with(t, prefix) && prefix.len() > 0 {
        assert(t.subrange(0, prefix.len() as int)[0] == t[0]);
    }
}

pub proof fn lemma_refers(r: Resource, t: Seq<char>)
    requires
        refers(t),
    ensures
        codec::shape(r, t) == codec::Shape::Leaf,
        red_types::is_reference(t),
        !red_types::is_handle(t),
        !codec_reader::named(t),
        !red_types::opaque_data(t),
        !text::starts_with(t, "multiChannelCurve:"@),
{
    lemma_unnamed(r, t);
    reveal_strlit("rRef:");
    reveal_strlit("raRef:");
    reveal_strlit("handle:");
    reveal_strlit("whandle:");
    lemma_prefix_first(t, "handle:"@);
    lemma_prefix_first(t, "whandle:"@);
    if t[1] == 'R' {
        assert(t.subrange(0, 5) =~= "rRef:"@);
    } else {
        assert(t.subrange(0, 6) =~= "raRef:"@);
    }
}

/// A value of a type that holds no others is one by itself.
pub proof fn lemma_leaf(r: Resource, t: Seq<char>, start: nat, size: nat)
    requires
        codec::shape(r, t) == codec::Shape::Leaf,
        start + size <= r.bytes.len(),
    ensures
        codec::value_at(r, t, start, size) == codec_reader::leaf(r, t, start, size),
{
}

pub proof fn lemma_reference(storage: Seq<char>, path: Seq<char>, flags: Seq<char>)
    ensures
        is_reference(
            crate::redpackage_reader::reference(storage, path, flags),
            storage,
            path,
            flags,
        ),
{
    reveal_strlit("DepotPath");
    reveal_strlit("Flags");
    assert("DepotPath"@.len() == 9);
    assert("Flags"@.len() == 5);
    lemma_stored("ResourcePath"@, storage, path);
    let depot = crate::redpackage_reader::stored("ResourcePath"@, storage, path);
    lemma_pair("DepotPath"@, depot, "Flags"@, said(flags));
    let list = seq![("DepotPath"@, depot), ("Flags"@, said(flags))];
    assert(list[0] == ("DepotPath"@, depot));
    let fields = entries::put(
        entries::put(Seq::empty(), "DepotPath"@, depot),
        "Flags"@,
        said(flags),
    );
    object_laws::lemma_field(fields, list, 0);
}

proof fn lemma_apart(
    a: value::Model,
    b: value::Model,
    p: Seq<char>,
    q: Seq<char>,
    a_flags: Seq<char>,
    b_flags: Seq<char>,
)
    requires
        is_reference(a, "string"@, p, a_flags),
        is_reference(b, "string"@, q, b_flags),
        p != q,
    ensures
        a != b,
{
    let depot_a = entries::find(a->Object_0, "DepotPath"@)->Some_0;
    let depot_b = entries::find(b->Object_0, "DepotPath"@)->Some_0;
    let list_a = seq![
        ("$type"@, said("ResourcePath"@)),
        ("$storage"@, said("string"@)),
        ("$value"@, said(p)),
    ];
    let list_b = seq![
        ("$type"@, said("ResourcePath"@)),
        ("$storage"@, said("string"@)),
        ("$value"@, said(q)),
    ];
    assert(list_a[2].0 == "$value"@);
    assert(list_b[2].0 == "$value"@);
    object_laws::lemma_field(depot_a->Object_0, list_a, 2);
    object_laws::lemma_field(depot_b->Object_0, list_b, 2);
}

/// A reference is stored as a number. Zero leads nowhere; a number up to that of the
/// imports leads to the import at that place, counted from one, with its path and its
/// flags; another is an error.
pub proof fn law_reference_read(r: Resource, t: Seq<char>, start: nat, size: nat)
    requires
        refers(t),
        start + size <= r.bytes.len(),
        start + 2 <= r.bytes.len(),
    ensures
        ({
            let i = two(r.bytes, start);
            let read = codec::value_at(r, t, start, size);
            if i == 0 {
                read matches Ok((m, end)) && end == start + size && is_reference(
                    m,
                    "uint64"@,
                    "0"@,
                    "Default"@,
                )
            } else if i <= r.file.imports.len() {
                read matches Ok((m, end)) && end == start + size && is_reference(
                    m,
                    "string"@,
                    r.file.imports[i - 1].depot_path,
                    flags_text(r.file.imports[i - 1].flags),
                )
            } else {
                read == Err::<(value::Model, nat), Fault>(
                    Fault::Malformed(start, "import index"@),
                )
            }
        }),
{
    lemma_refers(r, t);
    lemma_numbers(r.bytes, start);
    lemma_leaf(r, t, start, size);
    let i = two(r.bytes, start);
    if i == 0 {
        lemma_reference("uint64"@, "0"@, "Default"@);
    } else if i <= r.file.imports.len() {
        let import = r.file.imports[i - 1];
        assert(red_types::flags_name(import.flags as nat) == flags_text(import.flags));
        lemma_reference("string"@, import.depot_path, flags_text(import.flags));
    }
}

/// References to imports of different paths are different values.
pub proof fn law_references_apart(
    r: Resource,
    t: Seq<char>,
    other: Seq<char>,
    first: nat,
    second: nat,
)
    requires
        refers(t),
        refers(other),
        first + 2 <= r.bytes.len(),
        second + 2 <= r.bytes.len(),
        1 <= two(r.bytes, first) <= r.file.imports.len(),
        1 <= two(r.bytes, second) <= r.file.imports.len(),
        r.file.imports[two(r.bytes, first) - 1].depot_path != r.file.imports[two(r.bytes, second)
            - 1].depot_path,
    ensures
        codec::value_at(r, t, first, 2) matches Ok((a, _)) && codec::value_at(r, other, second, 2)
            matches Ok((b, _)) && a != b,
{
    law_reference_read(r, t, first, 2);
    law_reference_read(r, other, second, 2);
    let p = r.file.imports[two(r.bytes, first) - 1];
    let q = r.file.imports[two(r.bytes, second) - 1];
    lemma_apart(
        codec::value_at(r, t, first, 2)->Ok_0.0,
        codec::value_at(r, other, second, 2)->Ok_0.0,
        p.depot_path,
        q.depot_path,
        flags_text(p.flags),
        flags_text(q.flags),
    );
}

// ---------------------------------------------------------------------------
// Handles
// ---------------------------------------------------------------------------

/// Whether a type is that of handles to other exports.
pub open spec fn handles(t: Seq<char>) -> bool {
    ||| t.len() >= 7 && t[0] == 'h' && t[1] == 'a' && t[2] == 'n' && t[3] == 'd' && t[4] == 'l'
        && t[5] == 'e' && t[6] == ':'
    ||| t.len() >= 8 && t[0] == 'w' && t[1] == 'h' && t[2] == 'a' && t[3] == 'n' && t[4] == 'd'
        && t[5] == 'l' && t[6] == 'e' && t[7] == ':'
}

pub proof fn lemma_handles(r: Resource, t: Seq<char>)
    requires
        handles(t),
    ensures
        codec::shape(r, t) == codec::Shape::Leaf,
        red_types::is_handle(t),
        !codec_reader::named(t),
        !red_types::opaque_data(t),
        !text::starts_with(t, "multiChannelCurve:"@),
{
    lemma_unnamed(r, t);
    reveal_strlit("handle:");
    reveal_strlit("whandle:");
    if t[0] == 'h' {
        assert(t.subrange(0, 7) =~= "handle:"@);
    } else {
        assert(t.subrange(0, 8) =~= "whandle:"@);
    }
}

/// A handle is stored as a number. Zero is null; another leads to the export at that
/// place, counted from one.
pub proof fn law_handle_read(r: Resource, t: Seq<char>, start: nat, size: nat)
    requires
        handles(t),
        start + size <= r.bytes.len(),
        start + 4 <= r.bytes.len(),
    ensures
        ({
            let n = four(r.bytes, start);
            &&& codec::value_at(r, t, start, size) matches Ok((m, end))
            &&& end == start + size
            &&& n == 0 ==> m == value::Model::Null
            &&& n > 0 ==> has_fields(m, seq![("$handle"@, whole(n - 1))])
        }),
{
    lemma_handles(r, t);
    lemma_numbers(r.bytes, start);
    lemma_leaf(r, t, start, size);
    let l0 = Seq::<(Seq<char>, value::Model)>::empty();
    object_laws::lemma_none::<value::Model>();
    let handle = whole(four(r.bytes, start) - 1);
    object_laws::lemma_with(l0, l0, "$handle"@, handle);
    assert(l0.push(("$handle"@, handle)) =~= seq![("$handle"@, handle)]);
}

// ---------------------------------------------------------------------------
// Numbers, names and buffers
// ---------------------------------------------------------------------------

/// The types that are known by name are apart.
pub proof fn lemma_types()
    ensures
        "Bool"@ != "Int8"@,
        "Uint8"@ != "Int16"@,
        "Uint8"@ != "Int32"@,
        "Uint8"@ != "Int64"@,
        "Uint8"@ != "CRUID"@,
        "Uint8"@ != "Float"@,
        "Int16"@ != "Int32"@,
        "Int16"@ != "Int64"@,
        "Int16"@ != "CRUID"@,
        "Int16"@ != "Float"@,
        "Int32"@ != "Int64"@,
        "Int32"@ != "CRUID"@,
        "Int32"@ != "Float"@,
        "Int64"@ != "CRUID"@,
        "Int64"@ != "Float"@,
        "CRUID"@ != "Float"@,
        "Uint16"@ != "Uint32"@,
        "Uint16"@ != "Uint64"@,
        "Uint16"@ != "Double"@,
        "Uint32"@ != "Uint64"@,
        "Uint32"@ != "Double"@,
        "Uint64"@ != "Double"@,
        "Bool"@.len() == 4,
        "Int8"@.len() == 4,
        "Uint8"@.len() == 5,
        "Int16"@.len() == 5,
        "Int32"@.len() == 5,
        "Int64"@.len() == 5,
        "CRUID"@.len() == 5,
        "Float"@.len() == 5,
        "Uint16"@.len() == 6,
        "Uint32"@.len() == 6,
        "Uint64"@.len() == 6,
        "Double"@.len() == 6,
        "CDateTime"@.len() == 9,
{
    reveal_strlit("Bool");
    reveal_strlit("Uint8");
    reveal_strlit("Int8");
    reveal_strlit("Int16");
    reveal_strlit("Uint16");
    reveal_strlit("Int32");
    reveal_strlit("Uint32");
    reveal_strlit("Int64");
    reveal_strlit("Uint64");
    reveal_strlit("CRUID");
    reveal_strlit("CDateTime");
    reveal_strlit("Float");
    reveal_strlit("Double");
    assert("Bool"@[0] == 'B' && "Int8"@[0] == 'I');
    assert("Uint8"@[0] == 'U' && "CRUID"@[0] == 'C' && "Float"@[0] == 'F' && "Double"@[0] == 'D');
    assert("Int16"@[3] == '1' && "Int32"@[3] == '3' && "Int64"@[3] == '6' && "Int16"@[0] == 'I'
        && "Int32"@[0] == 'I' && "Int64"@[0] == 'I');
    assert("Uint16"@[4] == '1' && "Uint32"@[4] == '3' && "Uint64"@[4] == '6' && "Uint16"@[0] == 'U'
        && "Uint32"@[0] == 'U' && "Uint64"@[0] == 'U');
}

/// Integers and truth values are read from their bytes, the low one first, with a sign
/// where the type has one. Those of eight bytes are written as texts.
pub proof fn law_integer_read(r: Resource, t: Seq<char>, start: nat, size: nat)
    requires
        start + size <= r.bytes.len(),
        start + 8 <= r.bytes.len(),
    ensures
        ({
            let b = r.bytes;
            let read = codec::value_at(r, t, start, size);
            let end = start + size;
            &&& t == "Bool"@ ==> read == Ok::<(value::Model, nat), Fault>(
                (value::Model::Bool(b[start as int] != 0), end),
            )
            &&& t == "Uint8"@ ==> read == Ok::<(value::Model, nat), Fault>(
                (whole(b[start as int] as int), end),
            )
            &&& t == "Int8"@ ==> read == Ok::<(value::Model, nat), Fault>(
                (whole(with_sign(b[start as int] as nat, 0x80)), end),
            )
            &&& t == "Uint16"@ ==> read == Ok::<(value::Model, nat), Fault>(
                (whole(two(b, start) as int), end),
            )
            &&& t == "Int16"@ ==> read == Ok::<(value::Model, nat), Fault>(
                (whole(with_sign(two(b, start), 0x8000)), end),
            )
            &&& t == "Uint32"@ ==> read == Ok::<(value::Model, nat), Fault>(
                (whole(four(b, start) as int), end),
            )
            &&& t == "Int32"@ ==> read == Ok::<(value::Model, nat), Fault>(
                (whole(with_sign(four(b, start), 0x8000_0000)), end),
            )
            &&& t == "Int64"@ ==> read == Ok::<(value::Model, nat), Fault>(
                (
                    said(
                        number_text::signed_decimal(
                            with_sign(eight(b, start), 0x8000_0000_0000_0000),
                        ),
                    ),
                    end,
                ),
            )
            &&& (t == "Uint64"@ || t == "CRUID"@ || t == "CDateTime"@) ==> read == Ok::<
                (value::Model, nat),
                Fault,
            >((said(number_text::decimal(eight(b, start))), end))
        }),
{
    lemma_types();
    lemma_numbers(r.bytes, start);
}

/// Floats are read as their bits; one that is no number is null.
pub proof fn law_float_read(r: Resource, t: Seq<char>, start: nat, size: nat)
    requires
        start + size <= r.bytes.len(),
        start + 8 <= r.bytes.len(),
    ensures
        ({
            let single = four(r.bytes, start);
            let double = eight(r.bytes, start);
            let read = codec::value_at(r, t, start, size);
            let end = start + size;
            &&& t == "Float"@ ==> read == Ok::<(value::Model, nat), Fault>(
                (
                    if single / 0x80_0000 % 0x100 == 0xff {
                        value::Model::Null
                    } else {
                        value::Model::Number(
                            value::Number {
                                integer: None,
                                single: Some(single as u32),
                                double: None,
                            },
                        )
                    },
                    end,
                ),
            )
            &&& t == "Double"@ ==> read == Ok::<(value::Model, nat), Fault>(
                (
                    if double / 0x10_0000_0000_0000 % 0x800 == 0x7ff {
                        value::Model::Null
                    } else {
                        value::Model::Number(
                            value::Number {
                                integer: None,
                                single: None,
                                double: Some(double as u64),
                            },
                        )
                    },
                    end,
                ),
            )
        }),
{
    lemma_types();
    lemma_numbers(r.bytes, start);
}

} // verus!
