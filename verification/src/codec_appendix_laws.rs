//! What stands behind the properties of a class.

use crate::codec_appendix;
use crate::codec_appendix::ItemKind;
use crate::codec_leaf_laws;
use crate::codec_leaf_laws::{eight, four, is_reference, is_stored, two, whole, with_sign};
use crate::codec_reader;
use crate::codec_reader::Fault;
use crate::entries;
use crate::localization_text_laws::sevens;
use crate::number_text;
use crate::object_laws;
use crate::object_laws::{has_fields, said};
use crate::sequence;
use crate::value;
use vstd::prelude::*;

verus! {

/// A float at a place, by its bits. One that is no number is null.
pub open spec fn float_at(b: Seq<u8>, at: nat) -> value::Model {
    let bits = four(b, at);
    if bits / 0x80_0000 % 0x100 == 0xff {
        value::Model::Null
    } else {
        value::Model::Number(
            value::Number { integer: None, single: Some(bits as u32), double: None },
        )
    }
}

/// A text of the number of eight bytes at a place.
pub open spec fn long_at(b: Seq<u8>, at: nat) -> value::Model {
    said(number_text::decimal(eight(b, at)))
}

pub proof fn lemma_float(b: Seq<u8>, at: nat)
    requires
        at + 4 <= b.len(),
    ensures
        codec_appendix::single_at(b, at) == float_at(b, at),
{
    codec_leaf_laws::lemma_numbers(b, at);
}

/// Whether a value is a vector of three coordinates at a place.
pub open spec fn is_vector3(m: value::Model, b: Seq<u8>, at: nat) -> bool {
    has_fields(
        m,
        seq![
            ("$type"@, said("Vector3"@)),
            ("X"@, float_at(b, at)),
            ("Y"@, float_at(b, at + 4)),
            ("Z"@, float_at(b, at + 8)),
        ],
    )
}

/// Whether a value is a vector of three coordinates at a place and a fourth.
pub open spec fn is_vector4(m: value::Model, b: Seq<u8>, at: nat, w: value::Model) -> bool {
    has_fields(
        m,
        seq![
            ("$type"@, said("Vector4"@)),
            ("W"@, w),
            ("X"@, float_at(b, at)),
            ("Y"@, float_at(b, at + 4)),
            ("Z"@, float_at(b, at + 8)),
        ],
    )
}

/// Whether a value is a rotation at a place.
pub open spec fn is_rotation(m: value::Model, b: Seq<u8>, at: nat) -> bool {
    has_fields(
        m,
        seq![
            ("$type"@, said("Quaternion"@)),
            ("i"@, float_at(b, at)),
            ("j"@, float_at(b, at + 4)),
            ("k"@, float_at(b, at + 8)),
            ("r"@, float_at(b, at + 12)),
        ],
    )
}

/// Whether a value is a box at a place: its low corner, then its high one.
pub open spec fn is_box(m: value::Model, b: Seq<u8>, at: nat) -> bool {
    match m {
        value::Model::Object(fields) => match (
            entries::find(fields, "Min"@),
            entries::find(fields, "Max"@),
        ) {
            (Some(min), Some(max)) => {
                &&& has_fields(m, seq![("$type"@, said("Box"@)), ("Min"@, min), ("Max"@, max)])
                &&& is_vector4(min, b, at, value::double(0))
                &&& is_vector4(max, b, at + 12, value::double(0))
            },
            _ => false,
        },
        _ => false,
    }
}

pub proof fn lemma_keys()
    ensures
        "$type"@.len() == 5,
        "W"@.len() == 1 && "W"@[0] == 'W',
        "X"@.len() == 1 && "X"@[0] == 'X',
        "Y"@.len() == 1 && "Y"@[0] == 'Y',
        "Z"@.len() == 1 && "Z"@[0] == 'Z',
        "i"@.len() == 1 && "i"@[0] == 'i',
        "j"@.len() == 1 && "j"@[0] == 'j',
        "k"@.len() == 1 && "k"@[0] == 'k',
        "r"@.len() == 1 && "r"@[0] == 'r',
        "Min"@.len() == 3 && "Min"@[1] == 'i',
        "Max"@.len() == 3 && "Max"@[1] == 'a',
{
    reveal_strlit("$type");
    reveal_strlit("W");
    reveal_strlit("X");
    reveal_strlit("Y");
    reveal_strlit("Z");
    reveal_strlit("i");
    reveal_strlit("j");
    reveal_strlit("k");
    reveal_strlit("r");
    reveal_strlit("Min");
    reveal_strlit("Max");
}

proof fn lemma_typed(t: Seq<char>)
    ensures
        object_laws::lists(
            codec_appendix::typed(t),
            Seq::<(Seq<char>, value::Model)>::empty().push(("$type"@, said(t))),
        ),
{
    let none = Seq::<(Seq<char>, value::Model)>::empty();
    object_laws::lemma_none::<value::Model>();
    object_laws::lemma_with(none, none, "$type"@, said(t));
}

proof fn lemma_xyz(
    object: Seq<(Seq<char>, value::Model)>,
    list: Seq<(Seq<char>, value::Model)>,
    b: Seq<u8>,
    at: nat,
)
    requires
        at + 12 <= b.len(),
        object_laws::lists(object, list),
        forall|i: int|
            0 <= i < list.len() ==> (#[trigger] list[i]).0 != "X"@ && list[i].0 != "Y"@ && list[i].0
                != "Z"@,
    ensures
        object_laws::lists(
            codec_appendix::with_xyz(object, b, at),
            list.push(("X"@, float_at(b, at))).push(("Y"@, float_at(b, at + 4))).push(
                ("Z"@, float_at(b, at + 8)),
            ),
        ),
{
    lemma_keys();
    lemma_float(b, at);
    lemma_float(b, at + 4);
    lemma_float(b, at + 8);
    let x = float_at(b, at);
    let y = float_at(b, at + 4);
    object_laws::lemma_with(object, list, "X"@, x);
    let e1 = entries::put(object, "X"@, x);
    let l1 = list.push(("X"@, x));
    object_laws::lemma_with(e1, l1, "Y"@, y);
    let e2 = entries::put(e1, "Y"@, y);
    let l2 = l1.push(("Y"@, y));
    object_laws::lemma_with(e2, l2, "Z"@, float_at(b, at + 8));
}

pub proof fn lemma_vector3(b: Seq<u8>, at: nat)
    requires
        at + 12 <= b.len(),
    ensures
        is_vector3(codec_appendix::vector3(b, at), b, at),
{
    lemma_keys();
    lemma_typed("Vector3"@);
    let l1 = Seq::<(Seq<char>, value::Model)>::empty().push(("$type"@, said("Vector3"@)));
    lemma_xyz(codec_appendix::typed("Vector3"@), l1, b, at);
    assert(l1.push(("X"@, float_at(b, at))).push(("Y"@, float_at(b, at + 4))).push(
        ("Z"@, float_at(b, at + 8)),
    ) =~= seq![
        ("$type"@, said("Vector3"@)),
        ("X"@, float_at(b, at)),
        ("Y"@, float_at(b, at + 4)),
        ("Z"@, float_at(b, at + 8)),
    ]);
}

pub proof fn lemma_vector4(b: Seq<u8>, at: nat, w: value::Model)
    requires
        at + 12 <= b.len(),
    ensures
        is_vector4(codec_appendix::vector4(b, at, w), b, at, w),
{
    lemma_keys();
    lemma_typed("Vector4"@);
    let t = codec_appendix::typed("Vector4"@);
    let l1 = Seq::<(Seq<char>, value::Model)>::empty().push(("$type"@, said("Vector4"@)));
    object_laws::lemma_with(t, l1, "W"@, w);
    let l2 = l1.push(("W"@, w));
    lemma_xyz(entries::put(t, "W"@, w), l2, b, at);
    assert(l2.push(("X"@, float_at(b, at))).push(("Y"@, float_at(b, at + 4))).push(
        ("Z"@, float_at(b, at + 8)),
    ) =~= seq![
        ("$type"@, said("Vector4"@)),
        ("W"@, w),
        ("X"@, float_at(b, at)),
        ("Y"@, float_at(b, at + 4)),
        ("Z"@, float_at(b, at + 8)),
    ]);
}

proof fn lemma_rotation(b: Seq<u8>, at: nat)
    requires
        at + 16 <= b.len(),
    ensures
        is_rotation(codec_appendix::quaternion(b, at), b, at),
{
    lemma_keys();
    lemma_typed("Quaternion"@);
    lemma_float(b, at);
    lemma_float(b, at + 4);
    lemma_float(b, at + 8);
    lemma_float(b, at + 12);
    let e1 = codec_appendix::typed("Quaternion"@);
    let l1 = Seq::<(Seq<char>, value::Model)>::empty().push(("$type"@, said("Quaternion"@)));
    object_laws::lemma_with(e1, l1, "i"@, float_at(b, at));
    let e2 = entries::put(e1, "i"@, float_at(b, at));
    let l2 = l1.push(("i"@, float_at(b, at)));
    object_laws::lemma_with(e2, l2, "j"@, float_at(b, at + 4));
    let e3 = entries::put(e2, "j"@, float_at(b, at + 4));
    let l3 = l2.push(("j"@, float_at(b, at + 4)));
    object_laws::lemma_with(e3, l3, "k"@, float_at(b, at + 8));
    let e4 = entries::put(e3, "k"@, float_at(b, at + 8));
    let l4 = l3.push(("k"@, float_at(b, at + 8)));
    object_laws::lemma_with(e4, l4, "r"@, float_at(b, at + 12));
    assert(l4.push(("r"@, float_at(b, at + 12))) =~= seq![
        ("$type"@, said("Quaternion"@)),
        ("i"@, float_at(b, at)),
        ("j"@, float_at(b, at + 4)),
        ("k"@, float_at(b, at + 8)),
        ("r"@, float_at(b, at + 12)),
    ]);
}

proof fn lemma_box(b: Seq<u8>, at: nat)
    requires
        at + 24 <= b.len(),
    ensures
        is_box(codec_appendix::bounds(b, at), b, at),
{
    lemma_keys();
    lemma_typed("Box"@);
    let zero = value::double(0);
    lemma_vector4(b, at, zero);
    lemma_vector4(b, at + 12, zero);
    let min = codec_appendix::vector4(b, at, zero);
    let max = codec_appendix::vector4(b, at + 12, zero);
    let e1 = codec_appendix::typed("Box"@);
    let l1 = Seq::<(Seq<char>, value::Model)>::empty().push(("$type"@, said("Box"@)));
    object_laws::lemma_with(e1, l1, "Min"@, min);
    let e2 = entries::put(e1, "Min"@, min);
    let l2 = l1.push(("Min"@, min));
    object_laws::lemma_with(e2, l2, "Max"@, max);
    let l3 = l2.push(("Max"@, max));
    assert(l3 =~= seq![("$type"@, said("Box"@)), ("Min"@, min), ("Max"@, max)]);
    object_laws::lemma_field(entries::put(e2, "Max"@, max), l3, 1);
    object_laws::lemma_field(entries::put(e2, "Max"@, max), l3, 2);
}

/// The parts of a node that are objects themselves.
pub ghost struct Parts {
    pub position: value::Model,
    pub orientation: value::Model,
    pub scale: value::Model,
    pub pivot: value::Model,
    pub bounds: value::Model,
    pub quest: value::Model,
    pub hash: value::Model,
    pub prefab: value::Model,
}

/// Whether the parts of a node are those at a place.
pub open spec fn are_parts(p: Parts, b: Seq<u8>, at: nat) -> bool {
    &&& is_vector4(p.position, b, at, float_at(b, at + 12))
    &&& is_rotation(p.orientation, b, at + 16)
    &&& is_vector3(p.scale, b, at + 32)
    &&& is_vector3(p.pivot, b, at + 44)
    &&& is_box(p.bounds, b, at + 56)
    &&& is_stored(p.quest, "NodeRef"@, "uint64"@, number_text::decimal(eight(b, at + 88)))
    &&& is_stored(p.hash, "NodeRef"@, "uint64"@, number_text::decimal(eight(b, at + 96)))
    &&& is_reference(
        p.prefab,
        "uint64"@,
        number_text::decimal(eight(b, at + 104)),
        "Default"@,
    )
}

/// The first fields of a node.
pub open spec fn place_fields(b: Seq<u8>, at: nat, p: Parts) -> Seq<(Seq<char>, value::Model)> {
    seq![
        ("Id"@, long_at(b, at + 80)),
        ("NodeIndex"@, whole(two(b, at + 120) as int)),
        ("Position"@, p.position),
        ("Orientation"@, p.orientation),
        ("Scale"@, p.scale),
        ("Pivot"@, p.pivot),
        ("Bounds"@, p.bounds),
    ]
}

/// The fields of a node behind the first ones.
pub open spec fn other_fields(b: Seq<u8>, at: nat, p: Parts) -> Seq<(Seq<char>, value::Model)> {
    seq![
        ("QuestPrefabRefHash"@, p.quest),
        ("UkHash1"@, p.hash),
        ("CookedPrefabData"@, p.prefab),
        ("MaxStreamingDistance"@, float_at(b, at + 112)),
        ("UkFloat1"@, float_at(b, at + 116)),
        ("Uk10"@, whole(two(b, at + 122) as int)),
        ("Uk11"@, whole(two(b, at + 124) as int)),
        ("Uk12"@, whole(two(b, at + 126) as int)),
        ("Uk13"@, long_at(b, at + 128)),
        ("Uk14"@, long_at(b, at + 136)),
    ]
}

proof fn lemma_node_keys()
    ensures
        "Id"@.len() == 2,
        "NodeIndex"@.len() == 9,
        "Position"@.len() == 8 && "Position"@[0] == 'P',
        "Orientation"@.len() == 11,
        "Scale"@.len() == 5 && "Scale"@[0] == 'S',
        "Pivot"@.len() == 5 && "Pivot"@[0] == 'P',
        "Bounds"@.len() == 6,
        "QuestPrefabRefHash"@.len() == 18,
        "UkHash1"@.len() == 7,
        "CookedPrefabData"@.len() == 16,
        "MaxStreamingDistance"@.len() == 20,
        "UkFloat1"@.len() == 8 && "UkFloat1"@[0] == 'U',
        "Uk10"@.len() == 4 && "Uk10"@[3] == '0',
        "Uk11"@.len() == 4 && "Uk11"@[3] == '1',
        "Uk12"@.len() == 4 && "Uk12"@[3] == '2',
        "Uk13"@.len() == 4 && "Uk13"@[3] == '3',
        "Uk14"@.len() == 4 && "Uk14"@[3] == '4',
{
    reveal_strlit("Id");
    reveal_strlit("NodeIndex");
    reveal_strlit("Position");
    reveal_strlit("Orientation");
    reveal_strlit("Scale");
    reveal_strlit("Pivot");
    reveal_strlit("Bounds");
    reveal_strlit("QuestPrefabRefHash");
    reveal_strlit("UkHash1");
    reveal_strlit("CookedPrefabData");
    reveal_strlit("MaxStreamingDistance");
    reveal_strlit("UkFloat1");
    reveal_strlit("Uk10");
    reveal_strlit("Uk11");
    reveal_strlit("Uk12");
    reveal_strlit("Uk13");
    reveal_strlit("Uk14");
}

/// Puts one field behind others, given that none has its key.
proof fn lemma_more(
    found: Seq<(Seq<char>, value::Model)>,
    list: Seq<(Seq<char>, value::Model)>,
    key: Seq<char>,
    m: value::Model,
) -> (next: (Seq<(Seq<char>, value::Model)>, Seq<(Seq<char>, value::Model)>))
    requires
        object_laws::lists(found, list),
        forall|i: int| 0 <= i < list.len() ==> (#[trigger] list[i]).0 != key,
    ensures
        next.0 == entries::put(found, key, m),
        next.1 == list.push((key, m)),
        object_laws::lists(next.0, next.1),
{
    object_laws::lemma_with(found, list, key, m);
    (entries::put(found, key, m), list.push((key, m)))
}

spec fn parts_of(b: Seq<u8>, at: nat) -> Parts {
    Parts {
        position: codec_appendix::vector4(b, at, codec_appendix::single_at(b, at + 12)),
        orientation: codec_appendix::quaternion(b, at + 16),
        scale: codec_appendix::vector3(b, at + 32),
        pivot: codec_appendix::vector3(b, at + 44),
        bounds: codec_appendix::bounds(b, at + 56),
        quest: crate::redpackage_reader::stored_number(
            "NodeRef"@,
            codec_appendix::bits(b, at + 88, 8),
        ),
        hash: crate::redpackage_reader::stored_number(
            "NodeRef"@,
            codec_appendix::bits(b, at + 96, 8),
        ),
        prefab: codec_appendix::prefab(b, at + 104),
    }
}

proof fn lemma_parts(b: Seq<u8>, at: nat)
    requires
        at + 144 <= b.len(),
    ensures
        are_parts(parts_of(b, at), b, at),
{
    lemma_float(b, at + 12);
    lemma_vector4(b, at, float_at(b, at + 12));
    lemma_rotation(b, at + 16);
    lemma_vector3(b, at + 32);
    lemma_vector3(b, at + 44);
    lemma_box(b, at + 56);
    codec_leaf_laws::lemma_numbers(b, at + 88);
    codec_leaf_laws::lemma_numbers(b, at + 96);
    codec_leaf_laws::lemma_numbers(b, at + 104);
    codec_leaf_laws::lemma_stored(
        "NodeRef"@,
        "uint64"@,
        number_text::decimal(eight(b, at + 88)),
    );
    codec_leaf_laws::lemma_stored(
        "NodeRef"@,
        "uint64"@,
        number_text::decimal(eight(b, at + 96)),
    );
    codec_leaf_laws::lemma_reference(
        "uint64"@,
        number_text::decimal(eight(b, at + 104)),
        "Default"@,
    );
}

proof fn lemma_place(b: Seq<u8>, at: nat)
    requires
        at + 144 <= b.len(),
    ensures
        object_laws::lists(
            codec_appendix::node_place(b, at),
            place_fields(b, at, parts_of(b, at)),
        ),
{
    lemma_node_keys();
    let p = parts_of(b, at);
    codec_leaf_laws::lemma_numbers(b, at + 80);
    codec_leaf_laws::lemma_numbers(b, at + 120);
    let none = Seq::<(Seq<char>, value::Model)>::empty();
    object_laws::lemma_none::<value::Model>();
    let (e1, l1) = lemma_more(none, none, "Id"@, long_at(b, at + 80));
    let (e2, l2) = lemma_more(e1, l1, "NodeIndex"@, whole(two(b, at + 120) as int));
    let (e3, l3) = lemma_more(e2, l2, "Position"@, p.position);
    let (e4, l4) = lemma_more(e3, l3, "Orientation"@, p.orientation);
    let (e5, l5) = lemma_more(e4, l4, "Scale"@, p.scale);
    let (e6, l6) = lemma_more(e5, l5, "Pivot"@, p.pivot);
    let (e7, l7) = lemma_more(e6, l6, "Bounds"@, p.bounds);
    assert(l7 =~= place_fields(b, at, p));
}

spec fn middle(b: Seq<u8>, at: nat) -> Seq<(Seq<char>, value::Model)> {
    let p = parts_of(b, at);
    entries::put(
        entries::put(
            entries::put(
                entries::put(
                    entries::put(
                        codec_appendix::node_place(b, at),
                        "QuestPrefabRefHash"@,
                        p.quest,
                    ),
                    "UkHash1"@,
                    p.hash,
                ),
                "CookedPrefabData"@,
                p.prefab,
            ),
            "MaxStreamingDistance"@,
            float_at(b, at + 112),
        ),
        "UkFloat1"@,
        float_at(b, at + 116),
    )
}

spec fn middle_fields(b: Seq<u8>, at: nat) -> Seq<(Seq<char>, value::Model)> {
    let p = parts_of(b, at);
    place_fields(b, at, p).push(("QuestPrefabRefHash"@, p.quest)).push(("UkHash1"@, p.hash)).push(
        ("CookedPrefabData"@, p.prefab),
    ).push(("MaxStreamingDistance"@, float_at(b, at + 112))).push(
        ("UkFloat1"@, float_at(b, at + 116)),
    )
}

spec fn lengths(list: Seq<(Seq<char>, value::Model)>, n: nat) -> bool {
    forall|i: int| 0 <= i < list.len() ==> (#[trigger] list[i]).0.len() != n
}

proof fn lemma_middle(b: Seq<u8>, at: nat)
    requires
        at + 144 <= b.len(),
    ensures
        object_laws::lists(middle(b, at), middle_fields(b, at)),
        lengths(middle_fields(b, at), 4),
{
    lemma_node_keys();
    lemma_place(b, at);
    let p = parts_of(b, at);
    let e0 = codec_appendix::node_place(b, at);
    let l0 = place_fields(b, at, p);
    let (e1, l1) = lemma_more(e0, l0, "QuestPrefabRefHash"@, p.quest);
    let (e2, l2) = lemma_more(e1, l1, "UkHash1"@, p.hash);
    let (e3, l3) = lemma_more(e2, l2, "CookedPrefabData"@, p.prefab);
    let (e4, l4) = lemma_more(e3, l3, "MaxStreamingDistance"@, float_at(b, at + 112));
    let (e5, l5) = lemma_more(e4, l4, "UkFloat1"@, float_at(b, at + 116));
}

proof fn lemma_last_fields(
    e0: Seq<(Seq<char>, value::Model)>,
    l0: Seq<(Seq<char>, value::Model)>,
    v: value::Model,
    w: value::Model,
    x: value::Model,
    y: value::Model,
    z: value::Model,
)
    requires
        object_laws::lists(e0, l0),
        lengths(l0, 4),
    ensures
        object_laws::lists(
            entries::put(
                entries::put(
                    entries::put(
                        entries::put(entries::put(e0, "Uk10"@, v), "Uk11"@, w),
                        "Uk12"@,
                        x,
                    ),
                    "Uk13"@,
                    y,
                ),
                "Uk14"@,
                z,
            ),
            l0.push(("Uk10"@, v)).push(("Uk11"@, w)).push(("Uk12"@, x)).push(("Uk13"@, y)).push(
                ("Uk14"@, z),
            ),
        ),
{
    lemma_node_keys();
    let (e1, l1) = lemma_more(e0, l0, "Uk10"@, v);
    let (e2, l2) = lemma_more(e1, l1, "Uk11"@, w);
    let (e3, l3) = lemma_more(e2, l2, "Uk12"@, x);
    let (e4, l4) = lemma_more(e3, l3, "Uk13"@, y);
    let (e5, l5) = lemma_more(e4, l4, "Uk14"@, z);
}

proof fn lemma_rest(b: Seq<u8>, at: nat)
    requires
        at + 144 <= b.len(),
    ensures
        has_fields(
            codec_appendix::node(b, at),
            place_fields(b, at, parts_of(b, at)) + other_fields(b, at, parts_of(b, at)),
        ),
{
    lemma_middle(b, at);
    let p = parts_of(b, at);
    lemma_float(b, at + 112);
    lemma_float(b, at + 116);
    codec_leaf_laws::lemma_numbers(b, at + 122);
    codec_leaf_laws::lemma_numbers(b, at + 124);
    codec_leaf_laws::lemma_numbers(b, at + 126);
    codec_leaf_laws::lemma_numbers(b, at + 128);
    codec_leaf_laws::lemma_numbers(b, at + 136);
    let v = whole(two(b, at + 122) as int);
    let w = whole(two(b, at + 124) as int);
    let x = whole(two(b, at + 126) as int);
    let y = long_at(b, at + 128);
    let z = long_at(b, at + 136);
    let l = middle_fields(b, at);
    lemma_last_fields(middle(b, at), l, v, w, x, y, z);
    assert(l.push(("Uk10"@, v)).push(("Uk11"@, w)).push(("Uk12"@, x)).push(("Uk13"@, y)).push(
        ("Uk14"@, z),
    ) =~= place_fields(b, at, p) + other_fields(b, at, p));
}

/// A node of a sector is stored in 144 bytes: where it stands, how it is turned and how
/// large it is, what it takes up, and the numbers it is known by.
pub proof fn law_node_read(b: Seq<u8>, n: nat, i: nat) -> (p: Parts)
    requires
        i < n,
        144 * n <= b.len(),
    ensures
        codec_appendix::nodes(b, n).len() == n,
        are_parts(p, b, 144 * i),
        has_fields(
            codec_appendix::nodes(b, n)[i as int],
            place_fields(b, 144 * i, p) + other_fields(b, 144 * i, p),
        ),
{
    lemma_parts(b, 144 * i);
    lemma_rest(b, 144 * i);
    parts_of(b, 144 * i)
}

// ---------------------------------------------------------------------------
// Lists
// ---------------------------------------------------------------------------

/// A count of less than 64 is stored in one byte. A larger one has its low six bits in a
/// marked byte, and the others in bytes of seven bits behind it.
pub proof fn law_count_read(b: Seq<u8>, at: nat, n: nat)
    requires
        n < 64 ==> at < b.len() && b[at as int] == n,
        n >= 64 ==> at < b.len() && b[at as int] == 0x40 + n % 64 && sequence::stands(
            b,
            at + 1,
            sevens(n / 64),
        ) && sevens(n / 64).len() <= 4,
    ensures
        codec_reader::count_at(b, at) == Ok::<(nat, nat), Fault>(
            (
                n,
                if n < 64 {
                    at + 1
                } else {
                    at + 1 + sevens(n / 64).len()
                },
            ),
        ),
{
    if n >= 64 {
        lemma_groups(b, at + 1, 3, at, n / 64);
    }
}

proof fn lemma_groups(b: Seq<u8>, at: nat, left: nat, start: nat, value: nat)
    requires
        sequence::stands(b, at, sevens(value)),
        sevens(value).len() <= left + 1,
    ensures
        codec_reader::count_rest(b, at, left, start) == Ok::<(nat, nat), Fault>(
            (value, at + sevens(value).len()),
        ),
    decreases value,
{
    let groups = sevens(value);
    sequence::lemma_stands_index(b, at, groups, 0);
    if value >= 128 {
        let first = seq![(0x80 + value % 128) as u8];
        lemma_some(value / 128);
        sequence::lemma_stands_split(b, at, first, sevens(value / 128));
        lemma_groups(b, at + 1, (left - 1) as nat, start, value / 128);
    }
}

proof fn lemma_some(value: nat)
    ensures
        sevens(value).len() > 0,
    decreases value,
{
}

/// How far an item of a list stands behind the first.
pub open spec fn ahead(kind: ItemKind, i: nat) -> nat {
    if kind == ItemKind::Long {
        8 * i
    } else {
        4 * i
    }
}

/// The items of a list of identifiers are eight bytes each, those of a list of handles
/// four, of which zero leads nowhere and another to the export before it.
pub proof fn law_list_read(b: Seq<u8>, kind: ItemKind, at: nat, n: nat)
    requires
        at + ahead(kind, n) <= b.len(),
        kind != ItemKind::Reference,
    ensures
        codec_appendix::list_from(b, kind, at, n, Seq::empty()) matches Ok((items, end)) && end
            == at + ahead(kind, n) && items.len() == n && forall|i: nat|
            i < n ==> is_item(#[trigger] items[i as int], b, kind, at + ahead(kind, i)),
{
    lemma_list(b, kind, at, n, Seq::empty());
}

/// Whether a value is the item of a list at a place.
pub open spec fn is_item(m: value::Model, b: Seq<u8>, kind: ItemKind, at: nat) -> bool {
    match kind {
        ItemKind::Long => m == long_at(b, at),
        ItemKind::Variant => m == whole(with_sign(four(b, at), 0x8000_0000)),
        _ => has_fields(
            m,
            seq![
                (
                    "$handle"@,
                    whole(
                        if four(b, at) == 0 {
                            0xffff_ffff
                        } else {
                            four(b, at) - 1
                        },
                    ),
                ),
            ],
        ),
    }
}

proof fn lemma_item(b: Seq<u8>, kind: ItemKind, at: nat)
    requires
        kind != ItemKind::Reference,
        kind == ItemKind::Long ==> at + 8 <= b.len(),
        at + 4 <= b.len(),
    ensures
        codec_appendix::list_item(b, kind, at) matches Ok((m, end)) && end == at + (if kind
            == ItemKind::Long {
            8int
        } else {
            4
        }) && is_item(m, b, kind, at),
{
    codec_leaf_laws::lemma_numbers(b, at);
    let n = whole(
        if four(b, at) == 0 {
            0xffff_ffff
        } else {
            four(b, at) - 1
        },
    );
    let l0 = Seq::<(Seq<char>, value::Model)>::empty();
    object_laws::lemma_none::<value::Model>();
    object_laws::lemma_with(l0, l0, "$handle"@, n);
    assert(l0.push(("$handle"@, n)) =~= seq![("$handle"@, n)]);
}

proof fn lemma_list(b: Seq<u8>, kind: ItemKind, at: nat, left: nat, found: Seq<value::Model>)
    requires
        kind != ItemKind::Reference,
        at + ahead(kind, found.len() + left) <= b.len(),
        forall|i: nat|
            i < found.len() ==> is_item(
                #[trigger] found[i as int],
                b,
                kind,
                at + ahead(kind, i),
            ),
    ensures
        codec_appendix::list_from(b, kind, at + ahead(kind, found.len()), left, found) matches Ok(
            (items, end),
        ) && end == at + ahead(kind, found.len() + left) && items.len() == found.len() + left
            && forall|i: nat|
            i < items.len() ==> is_item(
                #[trigger] items[i as int],
                b,
                kind,
                at + ahead(kind, i),
            ),
    decreases left,
{
    if left > 0 {
        let spot = at + ahead(kind, found.len());
        lemma_item(b, kind, spot);
        let m = codec_appendix::list_item(b, kind, spot)->Ok_0.0;
        let more = found.push(m);
        assert forall|i: nat| i < more.len() implies is_item(
            #[trigger] more[i as int],
            b,
            kind,
            at + ahead(kind, i),
        ) by {
            if i < found.len() {
                assert(more[i as int] == found[i as int]);
            }
        }
        lemma_list(b, kind, at, (left - 1) as nat, more);
    }
}

// ---------------------------------------------------------------------------
// Devices
// ---------------------------------------------------------------------------

/// A device is read with its children before its parents, and behind them where it
/// stands.
pub proof fn law_device_read(
    b: Seq<u8>,
    hash: nat,
    class: Seq<char>,
    children: nat,
    parents: nat,
    at: nat,
) -> (r: (Seq<value::Model>, Seq<value::Model>, value::Model, value::Model))
    requires
        at + 8 * children + 8 * parents + 12 <= b.len(),
    ensures
        ({
            let (below, above, name, position) = r;
            &&& below.len() == children
            &&& forall|i: nat| i < children ==> #[trigger] below[i as int] == long_at(b, at + 8 * i)
            &&& above.len() == parents
            &&& forall|i: nat|
                i < parents ==> #[trigger] above[i as int] == long_at(
                    b,
                    at + 8 * children + 8 * i,
                )
            &&& is_stored(name, "CName"@, "string"@, class)
            &&& is_vector3(position, b, at + 8 * children + 8 * parents)
            &&& codec_appendix::device_lists(b, hash, class, children, parents, at) matches Ok(
                (m, end),
            )
            &&& end == at + 8 * children + 8 * parents + 12
            &&& has_fields(
                m,
                seq![
                    ("$type"@, said("gameDeviceResourceData_Cls1"@)),
                    ("hash"@, said(number_text::decimal(hash))),
                    ("className"@, name),
                    ("children"@, value::Model::Array(below)),
                    ("parents"@, value::Model::Array(above)),
                    ("nodePosition"@, position),
                ],
            )
        }),
{
    let second = at + 8 * children;
    let place = second + 8 * parents;
    law_list_read(b, ItemKind::Long, at, children);
    law_list_read(b, ItemKind::Long, second, parents);
    let below = codec_appendix::list_from(b, ItemKind::Long, at, children, Seq::empty())->Ok_0.0;
    let above =
        codec_appendix::list_from(b, ItemKind::Long, second, parents, Seq::empty())->Ok_0.0;
    assert forall|i: nat| i < children implies #[trigger] below[i as int] == long_at(
        b,
        at + 8 * i,
    ) by {
        assert(is_item(below[i as int], b, ItemKind::Long, at + 8 * i));
    }
    assert forall|i: nat| i < parents implies #[trigger] above[i as int] == long_at(
        b,
        second + 8 * i,
    ) by {
        assert(is_item(above[i as int], b, ItemKind::Long, second + 8 * i));
    }
    codec_leaf_laws::lemma_numbers(b, place);
    codec_leaf_laws::lemma_numbers(b, place + 4);
    codec_leaf_laws::lemma_numbers(b, place + 8);
    lemma_vector3(b, place);
    codec_leaf_laws::lemma_stored("CName"@, "string"@, class);
    let name = crate::redpackage_reader::stored_text("CName"@, class);
    let position = codec_appendix::vector3(b, place);
    lemma_device_keys();
    lemma_typed("gameDeviceResourceData_Cls1"@);
    let e0 = codec_appendix::typed("gameDeviceResourceData_Cls1"@);
    let l0 = Seq::<(Seq<char>, value::Model)>::empty().push(
        ("$type"@, said("gameDeviceResourceData_Cls1"@)),
    );
    let (e1, l1) = lemma_more(e0, l0, "hash"@, said(number_text::decimal(hash)));
    let (e2, l2) = lemma_more(e1, l1, "className"@, name);
    let (e3, l3) = lemma_more(e2, l2, "children"@, value::Model::Array(below));
    let (e4, l4) = lemma_more(e3, l3, "parents"@, value::Model::Array(above));
    let (e5, l5) = lemma_more(e4, l4, "nodePosition"@, position);
    assert(l5 =~= seq![
        ("$type"@, said("gameDeviceResourceData_Cls1"@)),
        ("hash"@, said(number_text::decimal(hash))),
        ("className"@, name),
        ("children"@, value::Model::Array(below)),
        ("parents"@, value::Model::Array(above)),
        ("nodePosition"@, position),
    ]);
    (below, above, name, position)
}

proof fn lemma_device_keys()
    ensures
        "$type"@.len() == 5,
        "hash"@.len() == 4,
        "className"@.len() == 9,
        "children"@.len() == 8,
        "parents"@.len() == 7,
        "nodePosition"@.len() == 12,
{
    reveal_strlit("$type");
    reveal_strlit("hash");
    reveal_strlit("className");
    reveal_strlit("children");
    reveal_strlit("parents");
    reveal_strlit("nodePosition");
}

/// What stands behind the lists of a sector is put under the names of the lists in their
/// order: handles, references, variants and a number.
pub proof fn law_sector_lists(
    b: Seq<u8>,
    at: nat,
    object: Seq<(Seq<char>, value::Model)>,
    list: Seq<(Seq<char>, value::Model)>,
    handles: (Seq<value::Model>, nat),
    references: (Seq<value::Model>, nat),
    variants: (Seq<value::Model>, nat),
)
    requires
        object_laws::lists(object, list),
        forall|i: int|
            0 <= i < list.len() ==> (#[trigger] list[i]).0 != "nodes"@ && list[i].0 != "nodeRefs"@
                && list[i].0 != "variantIndices"@ && list[i].0 != "persistentNodeIndex"@,
        codec_appendix::counted_list(b, ItemKind::Handle, at) == Ok::<
            (Seq<value::Model>, nat),
            Fault,
        >(handles),
        codec_appendix::counted_list(b, ItemKind::Reference, handles.1) == Ok::<
            (Seq<value::Model>, nat),
            Fault,
        >(references),
        codec_appendix::counted_list(b, ItemKind::Variant, references.1) == Ok::<
            (Seq<value::Model>, nat),
            Fault,
        >(variants),
        variants.1 + 4 <= b.len(),
    ensures
        codec_appendix::sector_lists(b, at, object) matches Ok((fields, end)) && end == variants.1
            + 4 && object_laws::lists(
            fields,
            list.push(("nodes"@, value::Model::Array(handles.0))).push(
                ("nodeRefs"@, value::Model::Array(references.0)),
            ).push(("variantIndices"@, value::Model::Array(variants.0))).push(
                (
                    "persistentNodeIndex"@,
                    whole(with_sign(four(b, variants.1), 0x8000_0000)),
                ),
            ),
        ),
{
    codec_leaf_laws::lemma_numbers(b, variants.1);
    reveal_strlit("nodes");
    reveal_strlit("nodeRefs");
    reveal_strlit("variantIndices");
    reveal_strlit("persistentNodeIndex");
    assert("nodes"@.len() == 5 && "nodeRefs"@.len() == 8 && "variantIndices"@.len() == 14
        && "persistentNodeIndex"@.len() == 19);
    let (e1, l1) = lemma_more(object, list, "nodes"@, value::Model::Array(handles.0));
    let (e2, l2) = lemma_more(e1, l1, "nodeRefs"@, value::Model::Array(references.0));
    let (e3, l3) = lemma_more(e2, l2, "variantIndices"@, value::Model::Array(variants.0));
    let (e4, l4) = lemma_more(
        e3,
        l3,
        "persistentNodeIndex"@,
        whole(with_sign(four(b, variants.1), 0x8000_0000)),
    );
}

} // verus!
