//! What the curves and the material values of a resource are.

use crate::codec;
use crate::codec_appendix_laws::{float_at, is_vector3, is_vector4};
use crate::codec_appendix;
use crate::codec_leaf_laws;
use crate::codec_leaf_laws::{four, two};
use crate::codec_reader::{Fault, Resource};
use crate::entries;
use crate::object_laws;
use crate::object_laws::{has_fields, said};
use crate::value;
use vstd::prelude::*;

verus! {

// ---------------------------------------------------------------------------
// Curves
// ---------------------------------------------------------------------------

/// The name of an interpolation.
pub open spec fn interpolation(n: u8) -> Option<Seq<char>> {
    match n {
        0 => Some("Constant"@),
        1 => Some("Linear"@),
        2 => Some("BezierQuadratic"@),
        3 => Some("BezierCubic"@),
        4 => Some("Hermite"@),
        _ => None,
    }
}

/// Behind the points of a curve stand a byte with the way between them and one with how
/// its segments are linked.
pub proof fn law_curve_end(r: Resource, items: Seq<value::Model>, cursor: nat, limit: nat)
    requires
        cursor + 2 <= limit <= r.bytes.len(),
        interpolation(r.bytes[cursor as int]) is Some,
        crate::red_types::segment_link(r.bytes[cursor as int + 1] as nat) is Some,
    ensures
        codec::curve_end(r, items, cursor, limit) matches Ok((m, end)) && end == cursor + 2
            && has_fields(
            m,
            seq![
                ("InterpolationType"@, said(interpolation(r.bytes[cursor as int])->0)),
                (
                    "LinkType"@,
                    said(crate::red_types::segment_link(r.bytes[cursor as int + 1] as nat)->0),
                ),
                ("Elements"@, value::Model::Array(items)),
            ],
        ),
{
    reveal_strlit("InterpolationType");
    reveal_strlit("LinkType");
    reveal_strlit("Elements");
    assert("InterpolationType"@.len() == 17 && "LinkType"@.len() == 8 && "Elements"@.len() == 8);
    assert("LinkType"@[0] == 'L' && "Elements"@[0] == 'E');
    codec_leaf_laws::lemma_triple(
        "InterpolationType"@,
        said(interpolation(r.bytes[cursor as int])->0),
        "LinkType"@,
        said(crate::red_types::segment_link(r.bytes[cursor as int + 1] as nat)->0),
        "Elements"@,
        value::Model::Array(items),
    );
}

/// A point of a curve is its place and its value.
pub proof fn law_point(bits: nat, m: value::Model)
    ensures
        has_fields(
            codec::point(bits, m),
            seq![("Point"@, value::single(bits)), ("Value"@, m)],
        ),
{
    reveal_strlit("Point");
    reveal_strlit("Value");
    assert("Point"@.len() == 5 && "Value"@.len() == 5);
    assert("Point"@[0] == 'P' && "Value"@[0] == 'V');
    codec_leaf_laws::lemma_pair("Point"@, value::single(bits), "Value"@, m);
}

/// The points of a curve of vectors are stored without properties: four bytes for each
/// coordinate, the colours of light in the order red, green, blue and alpha.
pub proof fn law_curve_vector(b: Seq<u8>, at: nat)
    requires
        at + 16 <= b.len(),
    ensures
        codec::curve_class_size("Vector2"@) == Some(8nat),
        codec::curve_class_size("Vector3"@) == Some(12nat),
        codec::curve_class_size("Vector4"@) == Some(16nat),
        codec::curve_class_size("HDRColor"@) == Some(16nat),
        has_fields(
            codec::curve_class(b, "Vector2"@, at),
            seq![
                ("$type"@, said("Vector2"@)),
                ("X"@, float_at(b, at)),
                ("Y"@, float_at(b, at + 4)),
            ],
        ),
        is_vector3(codec::curve_class(b, "Vector3"@, at), b, at),
        is_vector4(codec::curve_class(b, "Vector4"@, at), b, at, float_at(b, at + 12)),
        has_fields(
            codec::curve_class(b, "HDRColor"@, at),
            seq![
                ("$type"@, said("HDRColor"@)),
                ("Alpha"@, float_at(b, at + 12)),
                ("Blue"@, float_at(b, at + 8)),
                ("Green"@, float_at(b, at + 4)),
                ("Red"@, float_at(b, at)),
            ],
        ),
{
    reveal_strlit("Vector2");
    reveal_strlit("Vector3");
    reveal_strlit("Vector4");
    reveal_strlit("HDRColor");
    assert("Vector2"@[6] == '2' && "Vector3"@[6] == '3' && "Vector4"@[6] == '4');
    assert("Vector2"@.len() == 7 && "Vector3"@.len() == 7 && "Vector4"@.len() == 7
        && "HDRColor"@.len() == 8);
    crate::codec_appendix_laws::lemma_float(b, at);
    crate::codec_appendix_laws::lemma_float(b, at + 4);
    crate::codec_appendix_laws::lemma_float(b, at + 8);
    crate::codec_appendix_laws::lemma_float(b, at + 12);
    crate::codec_appendix_laws::lemma_vector3(b, at);
    crate::codec_appendix_laws::lemma_vector4(b, at, float_at(b, at + 12));
    lemma_flat(b, at);
    lemma_light(b, at);
}

proof fn lemma_flat(b: Seq<u8>, at: nat)
    ensures
        has_fields(
            value::Model::Object(
                entries::put(
                    entries::put(codec_appendix::typed("Vector2"@), "X"@, float_at(b, at)),
                    "Y"@,
                    float_at(b, at + 4),
                ),
            ),
            seq![
                ("$type"@, said("Vector2"@)),
                ("X"@, float_at(b, at)),
                ("Y"@, float_at(b, at + 4)),
            ],
        ),
{
    crate::codec_appendix_laws::lemma_keys();
    codec_leaf_laws::lemma_triple(
        "$type"@,
        said("Vector2"@),
        "X"@,
        float_at(b, at),
        "Y"@,
        float_at(b, at + 4),
    );
}

proof fn lemma_light(b: Seq<u8>, at: nat)
    ensures
        has_fields(
            value::Model::Object(
                entries::put(
                    entries::put(
                        entries::put(
                            entries::put(
                                codec_appendix::typed("HDRColor"@),
                                "Alpha"@,
                                float_at(b, at + 12),
                            ),
                            "Blue"@,
                            float_at(b, at + 8),
                        ),
                        "Green"@,
                        float_at(b, at + 4),
                    ),
                    "Red"@,
                    float_at(b, at),
                ),
            ),
            seq![
                ("$type"@, said("HDRColor"@)),
                ("Alpha"@, float_at(b, at + 12)),
                ("Blue"@, float_at(b, at + 8)),
                ("Green"@, float_at(b, at + 4)),
                ("Red"@, float_at(b, at)),
            ],
        ),
{
    reveal_strlit("$type");
    reveal_strlit("Alpha");
    reveal_strlit("Blue");
    reveal_strlit("Green");
    reveal_strlit("Red");
    assert("$type"@.len() == 5 && "Alpha"@.len() == 5 && "Blue"@.len() == 4 && "Green"@.len() == 5
        && "Red"@.len() == 3);
    assert("$type"@[0] == '$' && "Alpha"@[0] == 'A' && "Green"@[0] == 'G');
    crate::redpackage_stored_laws::lemma_five(
        "$type"@,
        said("HDRColor"@),
        "Alpha"@,
        float_at(b, at + 12),
        "Blue"@,
        float_at(b, at + 8),
        "Green"@,
        float_at(b, at + 4),
        "Red"@,
        float_at(b, at),
    );
}

// ---------------------------------------------------------------------------
// Material values
// ---------------------------------------------------------------------------

/// A value of a material instance has its size in four bytes, to which all its bytes
/// belong, then the indexes of its name and of its type. It is an object of that type
/// with the value under that name.
pub proof fn law_material_value(
    r: Resource,
    t: Seq<char>,
    cursor: nat,
    end: nat,
    left: nat,
    found: Seq<value::Model>,
    m: value::Model,
)
    requires
        left > 0,
        cursor + four(r.bytes, cursor) <= end <= r.bytes.len(),
        four(r.bytes, cursor) >= 8,
        cursor + 8 <= r.bytes.len(),
        two(r.bytes, cursor + 4) < r.file.names.len(),
        two(r.bytes, cursor + 6) < r.file.names.len(),
        r.file.names[two(r.bytes, cursor + 4) as int].value != "$type"@,
        codec::value_at(
            r,
            r.file.names[two(r.bytes, cursor + 6) as int].value,
            cursor + 8,
            (four(r.bytes, cursor) - 8) as nat,
        ) == Ok::<(value::Model, nat), Fault>((m, cursor + four(r.bytes, cursor))),
    ensures
        ({
            let name = r.file.names[two(r.bytes, cursor + 4) as int].value;
            let kind = r.file.names[two(r.bytes, cursor + 6) as int].value;
            let item = value::Model::Object(
                entries::put(
                    entries::put(Seq::empty(), "$type"@, said(kind)),
                    name,
                    m,
                ),
            );
            &&& has_fields(item, seq![("$type"@, said(kind)), (name, m)])
            &&& codec::materials(r, t, cursor, end, left, found) == codec::materials(
                r,
                t,
                cursor + four(r.bytes, cursor),
                end,
                (left - 1) as nat,
                found.push(item),
            )
        }),
{
    codec_leaf_laws::lemma_numbers(r.bytes, cursor);
    codec_leaf_laws::lemma_numbers(r.bytes, cursor + 4);
    codec_leaf_laws::lemma_numbers(r.bytes, cursor + 6);
    let name = r.file.names[two(r.bytes, cursor + 4) as int].value;
    let kind = r.file.names[two(r.bytes, cursor + 6) as int].value;
    codec_leaf_laws::lemma_pair("$type"@, said(kind), name, m);
}

} // verus!
