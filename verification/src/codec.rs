//! CR2W resources as documents.

use crate::codec_appendix;
use crate::codec_appendix::{new_decoded_buffer, typed_fields};
use crate::codec_reader;
use crate::codec_reader::{
    byte, is_named, malformed, new_tagged, u16_at, u32_at, CodecError, Decoder, Fault, Reading,
    Resource,
};
use crate::cr2w;
use crate::cr2w::Cr2wBuffer;
use crate::entries;
use crate::entries::has_name;
use crate::number_text;
use crate::number_text::decimal_text;
use crate::red_types;
use crate::red_types::{
    after_prefix, interpolation_type, is_opaque_custom_data, is_text, is_variable_size,
    names_handle, names_reference, segment_link_type, split_brackets, split_count,
};
use crate::redpackage::PackageSettings;
use crate::redpackage_document;
use crate::sequence::part;
use crate::text;
use crate::text::{chars_of, encode_base64, same_text, text_of};
use crate::value;
use crate::value::{set_entry, Value};
use vstd::prelude::*;

pub use crate::codec_document::{
    decode_exports, decode_exports_with_red_schema, decode_wkit, decode_wkit_with_red_schema,
    decode_wkit_with_schema,
};

verus! {

/// How a value of a type is built.
pub ghost enum Shape {
    Leaf,
    Array(Seq<char>),
    Static(nat, Seq<char>),
    Fixed(nat, Seq<char>),
    Broken,
    Curve(Seq<char>),
    Class,
}

/// How a value of a type is built.
pub enum Form<'a> {
    Leaf,
    Array(&'a [char]),
    Static(usize, &'a [char]),
    Fixed(usize, &'a [char]),
    Broken,
    Curve(&'a [char]),
    Class,
}

impl<'a> View for Form<'a> {
    type V = Shape;

    open spec fn view(&self) -> Shape {
        match self {
            Form::Leaf => Shape::Leaf,
            Form::Array(inner) => Shape::Array(inner@),
            Form::Static(count, inner) => Shape::Static(*count as nat, inner@),
            Form::Fixed(count, inner) => Shape::Fixed(*count as nat, inner@),
            Form::Broken => Shape::Broken,
            Form::Curve(inner) => Shape::Curve(inner@),
            Form::Class => Shape::Class,
        }
    }
}

/// How a value of a type that is not known by name is built.
pub open spec fn composed(r: Resource, t: Seq<char>) -> Shape {
    match red_types::rest_after(t, "array:"@) {
        Some(inner) => Shape::Array(inner),
        None => match red_types::rest_after(t, "static:"@) {
            Some(rest) => match red_types::count_type(rest) {
                Some((count, inner)) => Shape::Static(count, inner),
                None => Shape::Broken,
            },
            None => if t.len() > 0 && t[0] == '[' {
                match red_types::fixed_array_type(t) {
                    Some((count, inner)) => Shape::Fixed(count, inner),
                    None => Shape::Broken,
                }
            } else {
                match red_types::rest_after(t, "curveData:"@) {
                    Some(inner) => Shape::Curve(inner),
                    None => if text::starts_with(t, "multiChannelCurve:"@) || red_types::is_handle(
                        t,
                    ) || red_types::is_reference(t) || codec_reader::among(r.enums, t)
                        || codec_reader::among(r.bitfields, t) {
                        Shape::Leaf
                    } else if entries::find(r.classes, t) is Some {
                        Shape::Class
                    } else {
                        Shape::Leaf
                    },
                }
            },
        },
    }
}

/// How a value of a type is built.
pub open spec fn shape(r: Resource, t: Seq<char>) -> Shape {
    if codec_reader::named(t) || red_types::opaque_data(t) {
        Shape::Leaf
    } else {
        composed(r, t)
    }
}

/// The type inside another is shorter.
pub proof fn lemma_shape(r: Resource, t: Seq<char>)
    ensures
        match shape(r, t) {
            Shape::Array(inner) => inner.len() < t.len(),
            Shape::Static(_, inner) => inner.len() < t.len(),
            Shape::Fixed(_, inner) => inner.len() < t.len(),
            Shape::Curve(inner) => inner.len() < t.len(),
            _ => true,
        },
{
    reveal_strlit("array:");
    reveal_strlit("static:");
    reveal_strlit("curveData:");
    match red_types::rest_after(t, "static:"@) {
        Some(rest) => {
            red_types::lemma_first_index(rest, ',');
        },
        None => {},
    }
    if t.len() > 0 {
        red_types::lemma_first_index(t.subrange(1, t.len() as int), ']');
    }
}

/// The distance of two offsets, or zero.
pub open spec fn span(from: nat, to: nat) -> nat {
    if from < to {
        (to - from) as nat
    } else {
        0
    }
}

/// The size of the values of a type, where all have the same.
pub open spec fn type_size(t: Seq<char>) -> Option<nat> {
    if t == "serializationDeferredDataBuffer"@ {
        Some(2)
    } else {
        red_types::type_size(t)
    }
}

/// The size of an element that holds no other values.
pub open spec fn element_size(r: Resource, t: Seq<char>, cursor: nat, end: nat) -> nat {
    match type_size(t) {
        Some(size) => size,
        None => if entries::find(r.classes, t) is Some || red_types::varies(t) {
            span(cursor, end)
        } else {
            2
        },
    }
}

/// The size of the points of a curve that are stored without properties.
pub open spec fn curve_class_size(t: Seq<char>) -> Option<nat> {
    if t == "Vector2"@ {
        Some(8)
    } else if t == "Vector3"@ {
        Some(12)
    } else if t == "Vector4"@ || t == "HDRColor"@ {
        Some(16)
    } else {
        None
    }
}

/// A point of a curve that is stored without properties.
pub open spec fn curve_class(bytes: Seq<u8>, t: Seq<char>, at: nat) -> value::Model {
    let single = |place: nat| codec_appendix::single_at(bytes, place);
    let object = codec_appendix::typed(t);
    if t == "Vector2"@ {
        value::Model::Object(
            entries::put(entries::put(object, "X"@, single(at)), "Y"@, single(at + 4)),
        )
    } else if t == "Vector3"@ {
        value::Model::Object(codec_appendix::with_xyz(object, bytes, at))
    } else if t == "Vector4"@ {
        value::Model::Object(
            codec_appendix::with_xyz(entries::put(object, "W"@, single(at + 12)), bytes, at),
        )
    } else {
        value::Model::Object(
            entries::put(
                entries::put(
                    entries::put(
                        entries::put(object, "Alpha"@, single(at + 12)),
                        "Blue"@,
                        single(at + 8),
                    ),
                    "Green"@,
                    single(at + 4),
                ),
                "Red"@,
                single(at),
            ),
        )
    }
}

/// A package in a buffer.
pub open spec fn package_buffer(r: Resource, index: nat, offset: nat, hashed: bool) -> Result<
    value::Model,
    Fault,
> {
    match codec_reader::buffer_of(r, index, offset, false) {
        Err(f) => Err(f),
        Ok((buffer, bytes, _)) => {
            let room = if index * 65536 > usize::MAX {
                usize::MAX as nat
            } else {
                index * 65536
            };
            let base = r.file.exports.len() + room;
            if base > usize::MAX {
                codec_reader::fault(offset, "RedPackage handle ID base"@)
            } else {
                match redpackage_document::decoded(
                    bytes,
                    r.classes,
                    (PackageSettings { imports_as_hash: hashed, handle_id_base: base as usize }),
                ) {
                    Ok(data) => Ok(
                        codec_appendix::decoded_buffer(
                            index,
                            buffer.flags as nat,
                            "WolvenKit.RED4.Archive.Buffer.RedPackage, WolvenKit.RED4, Version=8.17.4.0, Culture=neutral, PublicKeyToken=null"@,
                            data,
                        ),
                    ),
                    Err(_) => Ok(
                        value::Model::Object(
                            entries::put(
                                entries::put(
                                    entries::put(
                                        Seq::empty(),
                                        "BufferId"@,
                                        value::Model::Text(number_text::decimal(index)),
                                    ),
                                    "Flags"@,
                                    value::integer(buffer.flags as int),
                                ),
                                "Bytes"@,
                                value::Model::Text(text::base64_text(bytes)),
                            ),
                        ),
                    ),
                }
            }
        },
    }
}

/// Whether the packages of a class store their imports as hashes.
pub open spec fn hashed_imports(r: Resource, class: Seq<char>) -> bool {
    class == "appearanceAppearanceDefinition"@ || (class == "entEntityTemplate"@
        && r.file.exports.len() > 0 && r.file.exports[0].class_name
        == "appearanceAppearanceResource"@)
}

/// The package of a property.
pub open spec fn package_property(r: Resource, class: Seq<char>, t: Seq<char>, at: nat) -> Result<
    value::Model,
    Fault,
> {
    if t == "DataBuffer"@ {
        match codec_reader::number(r.bytes, at, 4) {
            Err(f) => Err(f),
            Ok(encoded) => if encoded < 0x8000_0001 {
                codec_reader::fault(at, "RedPackage buffer pointer"@)
            } else {
                package_buffer(r, (encoded - 0x8000_0001) as nat, at, hashed_imports(r, class))
            },
        }
    } else {
        match codec_reader::number(r.bytes, at, 2) {
            Err(f) => Err(f),
            Ok(encoded) => if encoded < 1 {
                codec_reader::fault(at, "RedPackage deferred pointer"@)
            } else {
                package_buffer(r, (encoded - 1) as nat, at, hashed_imports(r, class))
            },
        }
    }
}

/// The properties that hold a package in a buffer.
pub open spec fn is_package(class: Seq<char>, name: Seq<char>, t: Seq<char>) -> bool {
    (t == "DataBuffer"@ || t == "serializationDeferredDataBuffer"@) && red_types::holds_package(
        class,
        name,
    )
}

/// A value, and where it ends.
pub open spec fn value_at(r: Resource, t: Seq<char>, start: nat, size: nat) -> Reading
    decreases size, t.len(), 2nat, 0nat,
{
    proof {
        lemma_shape(r, t);
    }
    if start + size > r.bytes.len() {
        codec_reader::fault(start, "value bounds"@)
    } else {
        match shape(r, t) {
            Shape::Leaf => codec_reader::leaf(r, t, start, size),
            Shape::Broken => Err(Fault::Unsupported(t)),
            Shape::Array(inner) => counted(r, inner, start, size, None),
            Shape::Static(count, inner) => counted(r, inner, start, size, Some(count)),
            Shape::Fixed(count, inner) => match counted(r, inner, start, size, Some(count)) {
                Err(f) => Err(f),
                Ok((m, end)) => Ok(
                    (value::Model::Object(entries::put(Seq::empty(), "Elements"@, m)), end),
                ),
            },
            Shape::Curve(inner) => curve(r, inner, start, size),
            Shape::Class => class_at(r, t, start, size),
        }
    }
}

/// An array behind its count, which may have a limit.
pub open spec fn counted(
    r: Resource,
    inner: Seq<char>,
    start: nat,
    size: nat,
    limit: Option<nat>,
) -> Reading
    decreases size, inner.len(), 4nat, 0nat,
{
    match codec_reader::number(r.bytes, start, 4) {
        Err(f) => Err(f),
        Ok(count) => if limit is Some && count > limit->0 {
            codec_reader::fault(start, "static array count"@)
        } else {
            elements(r, inner, start + 4, start + size, count, Seq::empty())
        },
    }
}

/// The elements of an array, behind those found.
pub open spec fn elements(
    r: Resource,
    inner: Seq<char>,
    cursor: nat,
    end: nat,
    left: nat,
    found: Seq<value::Model>,
) -> Reading
    decreases span(cursor, end), inner.len(), 3nat, left,
{
    if left == 0 {
        Ok((value::Model::Array(found), cursor))
    } else {
        let reading = if shape(r, inner) is Leaf {
            codec_reader::leaf(r, inner, cursor, element_size(r, inner, cursor, end))
        } else {
            value_at(r, inner, cursor, span(cursor, end))
        };
        match reading {
            Err(f) => Err(f),
            Ok((m, behind)) => if behind <= cursor || behind > end {
                codec_reader::fault(cursor, "array element bounds"@)
            } else {
                elements(r, inner, behind, end, (left - 1) as nat, found.push(m))
            },
        }
    }
}

/// A curve.
pub open spec fn curve(r: Resource, inner: Seq<char>, start: nat, size: nat) -> Reading
    decreases size, inner.len(), 4nat, 0nat,
{
    match codec_reader::number(r.bytes, start, 4) {
        Err(f) => Err(f),
        Ok(count) => match points(r, inner, start + 4, start + size, count, Seq::empty()) {
            Err(f) => Err(f),
            Ok((items, cursor)) => curve_end(r, items, cursor, start + size),
        },
    }
}

/// The fields behind the points of a curve.
pub open spec fn curve_end(r: Resource, items: Seq<value::Model>, cursor: nat, limit: nat) -> Reading {
    if cursor + 2 > limit {
        codec_reader::fault(cursor, "curve trailing fields"@)
    } else {
        match codec_reader::byte_at(r.bytes, cursor) {
            Err(f) => Err(f),
            Ok(way) => match red_types::interpolation(way) {
                None => codec_reader::fault(cursor, "curve interpolation type"@),
                Some(way) => match codec_reader::byte_at(r.bytes, cursor + 1) {
                    Err(f) => Err(f),
                    Ok(link) => match red_types::segment_link(link) {
                        None => codec_reader::fault(cursor + 1, "curve link type"@),
                        Some(link) => Ok(
                            (
                                value::Model::Object(
                                    entries::put(
                                        entries::put(
                                            entries::put(
                                                Seq::empty(),
                                                "InterpolationType"@,
                                                value::Model::Text(way),
                                            ),
                                            "LinkType"@,
                                            value::Model::Text(link),
                                        ),
                                        "Elements"@,
                                        value::Model::Array(items),
                                    ),
                                ),
                                cursor + 2,
                            ),
                        ),
                    },
                },
            },
        }
    }
}

/// A point of a curve.
pub open spec fn point(bits: nat, m: value::Model) -> value::Model {
    value::Model::Object(
        entries::put(entries::put(Seq::empty(), "Point"@, value::single(bits)), "Value"@, m),
    )
}

/// The points of a curve, behind those found, and where they end.
pub open spec fn points(
    r: Resource,
    inner: Seq<char>,
    cursor: nat,
    limit: nat,
    left: nat,
    found: Seq<value::Model>,
) -> Result<(Seq<value::Model>, nat), Fault>
    decreases span(cursor, limit), inner.len(), 3nat, left,
{
    if left == 0 {
        Ok((found, cursor))
    } else {
        match codec_reader::number(r.bytes, cursor, 4) {
            Err(f) => Err(f),
            Ok(bits) => {
                let at = cursor + 4;
                let reading = match curve_class_size(inner) {
                    Some(size) => if at + size > limit {
                        codec_reader::fault(at, "fixed curve class bounds"@)
                    } else {
                        Ok((curve_class(r.bytes, inner, at), at + size))
                    },
                    None => if shape(r, inner) is Leaf {
                        codec_reader::leaf(
                            r,
                            inner,
                            at,
                            match type_size(inner) {
                                Some(size) => size,
                                None => span(at, limit),
                            },
                        )
                    } else {
                        value_at(r, inner, at, span(at, limit))
                    },
                };
                match reading {
                    Err(f) => Err(f),
                    Ok((m, behind)) => if behind <= at || behind > limit {
                        codec_reader::fault(at, "curve element bounds"@)
                    } else {
                        points(
                            r,
                            inner,
                            behind,
                            limit,
                            (left - 1) as nat,
                            found.push(point(bits, m)),
                        )
                    },
                }
            },
        }
    }
}

/// A class, and where it ends.
pub open spec fn class_at(r: Resource, t: Seq<char>, start: nat, size: nat) -> Reading
    decreases size, t.len(), 1nat, 0nat,
{
    let end = start + size;
    if end > r.bytes.len() {
        codec_reader::fault(start, "class bounds"@)
    } else if t == "AreaShapeOutline"@ {
        Ok((codec_reader::tagged(t, "buffer"@, codec_reader::coded(r, start, end)), end))
    } else if red_types::opaque_data(t) {
        Ok((codec_reader::tagged(t, "$rawData"@, codec_reader::coded(r, start, end)), end))
    } else {
        match codec_reader::byte_at(r.bytes, start) {
            Err(f) => Err(f),
            Ok(marker) => if marker != 0 {
                codec_reader::fault(start, "class marker"@)
            } else {
                match properties(r, t, start + 1, end, codec_appendix::typed(t)) {
                    Err(f) => Err(f),
                    Ok((object, cursor)) => {
                        let extended = if t == "CMaterialInstance"@ {
                            if start < cursor {
                                material_values(r, t, cursor, end, object)
                            } else {
                                codec_reader::fault(cursor, "class bounds"@)
                            }
                        } else {
                            appendix(r, t, cursor, end, object)
                        };
                        match extended {
                            Err(f) => Err(f),
                            Ok((fields, last)) => if last >= end || !red_types::opaque_tail(t) {
                                Ok((value::Model::Object(fields), last))
                            } else {
                                Ok(
                                    (
                                        value::Model::Object(
                                            entries::put(
                                                fields,
                                                "$rawTail"@,
                                                value::Model::Text(
                                                    codec_reader::coded(r, last, end),
                                                ),
                                            ),
                                        ),
                                        end,
                                    ),
                                )
                            },
                        }
                    },
                }
            },
        }
    }
}

/// What stands behind the properties of a class.
pub open spec fn appendix(
    r: Resource,
    t: Seq<char>,
    cursor: nat,
    end: nat,
    object: Seq<(Seq<char>, value::Model)>,
) -> codec_appendix::Extended {
    if t == "worldStreamingSector"@ {
        codec_appendix::sector(r, cursor, end, object)
    } else if t == "gameDeviceResourceData"@ {
        codec_appendix::device_data(r, cursor, end, object)
    } else if t == "worldStreamingWorld"@ {
        Ok((object, end))
    } else {
        Ok((object, cursor))
    }
}

/// The properties of a class, behind those read, and where they end.
pub open spec fn properties(
    r: Resource,
    t: Seq<char>,
    cursor: nat,
    end: nat,
    object: Seq<(Seq<char>, value::Model)>,
) -> codec_appendix::Extended
    decreases span(cursor, end), t.len(), 0nat, 0nat,
{
    let at = cursor + 8;
    match codec_reader::number(r.bytes, cursor, 2) {
        Err(f) => Err(f),
        Ok(name_index) => if name_index == 0 {
            Ok((object, cursor + 2))
        } else {
            match (
                codec_reader::number(r.bytes, cursor + 2, 2),
                codec_reader::number(r.bytes, cursor + 4, 4),
            ) {
                (Err(f), _) => Err(f),
                (_, Err(f)) => Err(f),
                (Ok(type_index), Ok(total)) => if total < 4 {
                    codec_reader::fault(at, "property size"@)
                } else if at + total - 4 > end {
                    codec_reader::fault(at, "property bounds"@)
                } else {
                    match (
                        codec_reader::name_of(r, name_index, at),
                        codec_reader::name_of(r, type_index, at),
                    ) {
                        (Err(f), _) => Err(f),
                        (_, Err(f)) => Err(f),
                        (Ok(name), Ok(kind)) => {
                            let last = (at + total - 4) as nat;
                            let reading = if is_package(t, name, kind) {
                                match package_property(r, t, kind, at) {
                                    Err(f) => Err(f),
                                    Ok(m) => Ok((m, last)),
                                }
                            } else {
                                value_at(r, kind, at, (total - 4) as nat)
                            };
                            match reading {
                                Err(f) => Err(f),
                                Ok((m, consumed)) => if consumed != last {
                                    codec_reader::fault(consumed, "property trailing bytes"@)
                                } else {
                                    properties(r, t, last, end, entries::put(object, name, m))
                                },
                            }
                        },
                    }
                },
            }
        },
    }
}

/// The values of a material instance.
pub open spec fn material_values(
    r: Resource,
    t: Seq<char>,
    cursor: nat,
    end: nat,
    object: Seq<(Seq<char>, value::Model)>,
) -> codec_appendix::Extended
    decreases span(cursor, end), t.len(), 0nat, 1nat,
{
    match codec_reader::number(r.bytes, cursor, 4) {
        Err(f) => Err(f),
        Ok(count) => match materials(r, t, cursor + 4, end, count, Seq::empty()) {
            Err(f) => Err(f),
            Ok((items, last)) => Ok(
                (entries::put(object, "values"@, value::Model::Array(items)), last),
            ),
        },
    }
}

/// Values of a material instance, behind those found, and where they end.
pub open spec fn materials(
    r: Resource,
    t: Seq<char>,
    cursor: nat,
    end: nat,
    left: nat,
    found: Seq<value::Model>,
) -> Result<(Seq<value::Model>, nat), Fault>
    decreases span(cursor, end), t.len(), 0nat, 0nat,
{
    if left == 0 {
        Ok((found, cursor))
    } else {
        match codec_reader::number(r.bytes, cursor, 4) {
            Err(f) => Err(f),
            Ok(total) => if cursor + total > end {
                codec_reader::fault(cursor, "material value bounds"@)
            } else {
                match (
                    codec_reader::name_there(r, cursor + 4, cursor + 4),
                    codec_reader::name_there(r, cursor + 6, cursor + 6),
                ) {
                    (Err(f), _) => Err(f),
                    (_, Err(f)) => Err(f),
                    (Ok(name), Ok(kind)) => if total < 8 {
                        codec_reader::fault(cursor + 8, "material value trailing bytes"@)
                    } else {
                        match value_at(r, kind, cursor + 8, (total - 8) as nat) {
                            Err(f) => Err(f),
                            Ok((m, consumed)) => if consumed != cursor + total {
                                codec_reader::fault(consumed, "material value trailing bytes"@)
                            } else {
                                materials(
                                    r,
                                    t,
                                    cursor + total,
                                    end,
                                    (left - 1) as nat,
                                    found.push(
                                        value::Model::Object(
                                            entries::put(codec_appendix::typed(kind), name, m),
                                        ),
                                    ),
                                )
                            },
                        }
                    },
                }
            },
        }
    }
}

/// The size of the values of a type, where all have the same.
pub fn fixed_size(t: &[char]) -> (result: Option<usize>)
    ensures
        match type_size(t@) {
            Some(size) => result matches Some(r) && r == size,
            None => result is None,
        },
{
    if is_text(t, "serializationDeferredDataBuffer") {
        Some(2)
    } else {
        red_types::fixed_size(t)
    }
}

/// The size of the points of a curve that are stored without properties.
pub fn fixed_curve_class_size(t: &[char]) -> (result: Option<usize>)
    ensures
        match curve_class_size(t@) {
            Some(size) => result matches Some(r) && r == size && 8 <= r <= 16,
            None => result is None,
        },
{
    if is_text(t, "Vector2") {
        Some(8)
    } else if is_text(t, "Vector3") {
        Some(12)
    } else if is_text(t, "Vector4") || is_text(t, "HDRColor") {
        Some(16)
    } else {
        None
    }
}

fn distance(from: usize, to: usize) -> (result: usize)
    ensures
        result == span(from as nat, to as nat),
{
    if from < to {
        to - from
    } else {
        0
    }
}

fn read_curve_class(bytes: &[u8], t: &[char], at: usize) -> (result: Value)
    requires
        curve_class_size(t@) matches Some(size) && at + size <= usize::MAX,
    ensures
        result@ == curve_class(bytes@, t@, at as nat),
{
    let name: String = text_of(t);
    let mut fields: Vec<(String, Value)> = typed_fields(name.as_str());
    if is_text(t, "Vector2") {
        set_entry(&mut fields, "X", codec_appendix::get_single(bytes, at));
        set_entry(&mut fields, "Y", codec_appendix::get_single(bytes, at + 4));
    } else if is_text(t, "Vector3") {
        codec_appendix::set_xyz(&mut fields, bytes, at);
    } else if is_text(t, "Vector4") {
        set_entry(&mut fields, "W", codec_appendix::get_single(bytes, at + 12));
        codec_appendix::set_xyz(&mut fields, bytes, at);
    } else {
        set_entry(&mut fields, "Alpha", codec_appendix::get_single(bytes, at + 12));
        set_entry(&mut fields, "Blue", codec_appendix::get_single(bytes, at + 8));
        set_entry(&mut fields, "Green", codec_appendix::get_single(bytes, at + 4));
        set_entry(&mut fields, "Red", codec_appendix::get_single(bytes, at));
    }
    Value::Object(fields)
}

fn new_point(bits: u32, value: Value) -> (result: Value)
    ensures
        result@ == point(bits as nat, value@),
{
    let mut fields: Vec<(String, Value)> = Vec::new();
    set_entry(&mut fields, "Point", Value::single(bits));
    set_entry(&mut fields, "Value", value);
    Value::Object(fields)
}

impl<'a> Decoder<'a> {
    /// Tells how a value of a type is built.
    fn form_of<'t>(&self, t: &'t [char]) -> (result: Form<'t>)
        ensures
            result@ == shape(self@, t@),
    {
        if is_named(t) || is_opaque_custom_data(t) {
            return Form::Leaf;
        }
        if let Some(inner) = after_prefix(t, "array:") {
            return Form::Array(inner);
        }
        if let Some(rest) = after_prefix(t, "static:") {
            return match split_count(rest) {
                Some((count, inner)) => Form::Static(count, inner),
                None => Form::Broken,
            };
        }
        if t.len() > 0 && t[0] == '[' {
            return match split_brackets(t) {
                Some((count, inner)) => Form::Fixed(count, inner),
                None => Form::Broken,
            };
        }
        if let Some(inner) = after_prefix(t, "curveData:") {
            return Form::Curve(inner);
        }
        if after_prefix(t, "multiChannelCurve:").is_some() || names_handle(t) || names_reference(t)
            || codec_reader::one_of(self.enums, t) || codec_reader::one_of(self.bitfields, t) {
            return Form::Leaf;
        }
        if has_name(self.classes, text_of(t).as_str()) {
            Form::Class
        } else {
            Form::Leaf
        }
    }

    fn is_leaf(&self, t: &[char]) -> (result: bool)
        ensures
            result == (shape(self@, t@) is Leaf),
    {
        match self.form_of(t) {
            Form::Leaf => true,
            _ => false,
        }
    }

    fn size_of_element(&self, t: &[char], cursor: usize, end: usize) -> (result: usize)
        ensures
            result == element_size(self@, t@, cursor as nat, end as nat),
    {
        match fixed_size(t) {
            Some(size) => size,
            None => if has_name(self.classes, text_of(t).as_str()) || is_variable_size(t) {
                distance(cursor, end)
            } else {
                2
            },
        }
    }

    fn package_buffer(&self, index: usize, offset: usize, hashed: bool) -> (result: Result<
        Value,
        CodecError,
    >)
        ensures
            match package_buffer(self@, index as nat, offset as nat, hashed) {
                Ok(m) => result matches Ok(r) && r@ == m,
                Err(f) => result matches Err(e) && e@ == f,
            },
    {
        let (buffer, bytes, _): (Cr2wBuffer, &[u8], bool) = match self.buffer(
            index,
            offset,
            false,
        ) {
            Ok(found) => found,
            Err(error) => return Err(error),
        };
        let room: usize = if index > usize::MAX / 65536 {
            usize::MAX
        } else {
            index * 65536
        };
        let base: usize = match self.file.exports.len().checked_add(room) {
            Some(base) => base,
            None => return Err(malformed(offset, "RedPackage handle ID base")),
        };
        let settings: PackageSettings = PackageSettings {
            imports_as_hash: hashed,
            handle_id_base: base,
        };
        match redpackage_document::decode(bytes, self.classes, settings) {
            Ok(data) => Ok(
                new_decoded_buffer(
                    index,
                    buffer.flags,
                    "WolvenKit.RED4.Archive.Buffer.RedPackage, WolvenKit.RED4, Version=8.17.4.0, Culture=neutral, PublicKeyToken=null",
                    data,
                ),
            ),
            Err(_) => {
                let mut fields: Vec<(String, Value)> = Vec::new();
                set_entry(&mut fields, "BufferId", Value::Text(decimal_text(index as u64)));
                set_entry(&mut fields, "Flags", Value::integer(buffer.flags as i128));
                set_entry(&mut fields, "Bytes", Value::Text(encode_base64(bytes)));
                Ok(Value::Object(fields))
            },
        }
    }

    fn imports_as_hash(&self, class: &[char]) -> (result: bool)
        ensures
            result == hashed_imports(self@, class@),
    {
        if is_text(class, "appearanceAppearanceDefinition") {
            return true;
        }
        if is_text(class, "entEntityTemplate") && self.file.exports.len() > 0 {
            assert(self@.file.exports[0] == self.file.exports@[0]@);
            return same_text(
                self.file.exports[0].class_name.as_str(),
                "appearanceAppearanceResource",
            );
        }
        false
    }

    fn package_property(&self, class: &[char], t: &[char], at: usize) -> (result: Result<
        Value,
        CodecError,
    >)
        ensures
            match package_property(self@, class@, t@, at as nat) {
                Ok(m) => result matches Ok(r) && r@ == m,
                Err(f) => result matches Err(e) && e@ == f,
            },
    {
        let hashed: bool = self.imports_as_hash(class);
        if is_text(t, "DataBuffer") {
            let encoded: u32 = match u32_at(self.bytes, at) {
                Ok(encoded) => encoded,
                Err(error) => return Err(error),
            };
            if encoded < 0x8000_0001 {
                return Err(malformed(at, "RedPackage buffer pointer"));
            }
            return self.package_buffer((encoded - 0x8000_0001) as usize, at, hashed);
        }
        let encoded: u16 = match u16_at(self.bytes, at) {
            Ok(encoded) => encoded,
            Err(error) => return Err(error),
        };
        if encoded < 1 {
            return Err(malformed(at, "RedPackage deferred pointer"));
        }
        self.package_buffer(encoded as usize - 1, at, hashed)
    }

    /// Reads a value.
    pub fn read_value(&self, t: &[char], start: usize, size: usize) -> (result: Result<
        (Value, usize),
        CodecError,
    >)
        ensures
            match value_at(self@, t@, start as nat, size as nat) {
                Ok((m, end)) => result matches Ok(r) && r.0@ == m && r.1 == end,
                Err(f) => result matches Err(e) && e@ == f,
            },
        decreases size, t@.len(), 2nat, 0nat,
    {
        proof {
            lemma_shape(self@, t@);
        }
        if start > self.bytes.len() || size > self.bytes.len() - start {
            return Err(malformed(start, "value bounds"));
        }
        match self.form_of(t) {
            Form::Leaf => self.read_leaf(t, start, size),
            Form::Broken => Err(CodecError::Unsupported { red_type: text_of(t) }),
            Form::Array(inner) => self.read_counted_array(inner, start, size, None),
            Form::Static(count, inner) => self.read_counted_array(inner, start, size, Some(count)),
            Form::Fixed(count, inner) => match self.read_counted_array(
                inner,
                start,
                size,
                Some(count),
            ) {
                Ok((items, end)) => {
                    let mut fields: Vec<(String, Value)> = Vec::new();
                    set_entry(&mut fields, "Elements", items);
                    Ok((Value::Object(fields), end))
                },
                Err(error) => Err(error),
            },
            Form::Curve(inner) => self.read_legacy_curve(inner, start, size),
            Form::Class => self.read_class(t, start, size),
        }
    }

    fn read_counted_array(
        &self,
        inner: &[char],
        start: usize,
        size: usize,
        limit: Option<usize>,
    ) -> (result: Result<(Value, usize), CodecError>)
        requires
            start + size <= self.bytes@.len(),
        ensures
            match counted(
                self@,
                inner@,
                start as nat,
                size as nat,
                match limit {
                    Some(limit) => Some(limit as nat),
                    None => None,
                },
            ) {
                Ok((m, end)) => result matches Ok(r) && r.0@ == m && r.1 == end,
                Err(f) => result matches Err(e) && e@ == f,
            },
        decreases size, inner@.len(), 4nat, 0nat,
    {
        let total: usize = self.bytes.len();
        let count: u32 = match u32_at(self.bytes, start) {
            Ok(count) => count,
            Err(error) => return Err(error),
        };
        if let Some(limit) = limit {
            if count as usize > limit {
                return Err(malformed(start, "static array count"));
            }
        }
        let end: usize = start + size;
        let from: usize = start + 4;
        let ghost wanted = elements(
            self@,
            inner@,
            from as nat,
            end as nat,
            count as nat,
            Seq::empty(),
        );
        let leaf: bool = self.is_leaf(inner);
        let mut items: Vec<Value> = Vec::new();
        let mut cursor: usize = from;
        let mut left: u32 = count;
        while left > 0
            invariant
                start + 4 <= cursor,
                from == start + 4,
                end == start + size,
                leaf == (shape(self@, inner@) is Leaf),
                wanted == elements(
                    self@,
                    inner@,
                    cursor as nat,
                    end as nat,
                    left as nat,
                    value::models(items@),
                ),
                counted(
                    self@,
                    inner@,
                    start as nat,
                    size as nat,
                    match limit {
                        Some(limit) => Some(limit as nat),
                        None => None,
                    },
                ) == wanted,
            decreases left,
        {
            let reading: Result<(Value, usize), CodecError> = if leaf {
                self.read_leaf(inner, cursor, self.size_of_element(inner, cursor, end))
            } else {
                self.read_value(inner, cursor, distance(cursor, end))
            };
            let (item, behind): (Value, usize) = match reading {
                Ok(reading) => reading,
                Err(error) => return Err(error),
            };
            if behind <= cursor || behind > end {
                return Err(malformed(cursor, "array element bounds"));
            }
            proof {
                value::lemma_models_push(items@, item);
            }
            items.push(item);
            cursor = behind;
            left = left - 1;
        }
        Ok((Value::Array(items), cursor))
    }

    fn read_point(&self, inner: &[char], leaf: bool, at: usize, limit: usize) -> (result: Result<
        (Value, usize),
        CodecError,
    >)
        requires
            leaf == (shape(self@, inner@) is Leaf),
            at <= self.bytes@.len(),
            limit <= self.bytes@.len(),
        ensures
            match (match curve_class_size(inner@) {
                Some(size) => if at + size > limit {
                    codec_reader::fault(at as nat, "fixed curve class bounds"@)
                } else {
                    Ok((curve_class(self@.bytes, inner@, at as nat), at as nat + size))
                },
                None => if leaf {
                    codec_reader::leaf(
                        self@,
                        inner@,
                        at as nat,
                        match type_size(inner@) {
                            Some(size) => size,
                            None => span(at as nat, limit as nat),
                        },
                    )
                } else {
                    value_at(self@, inner@, at as nat, span(at as nat, limit as nat))
                },
            }) {
                Ok((m, behind)) => result matches Ok(r) && r.0@ == m && r.1 == behind,
                Err(f) => result matches Err(e) && e@ == f,
            },
        decreases span(at as nat, limit as nat), inner@.len(), 3nat, 0nat,
    {
        let total: usize = self.bytes.len();
        if let Some(size) = fixed_curve_class_size(inner) {
            if at > limit || size > limit - at {
                return Err(malformed(at, "fixed curve class bounds"));
            }
            return Ok((read_curve_class(self.bytes, inner, at), at + size));
        }
        if leaf {
            let size: usize = match fixed_size(inner) {
                Some(size) => size,
                None => distance(at, limit),
            };
            self.read_leaf(inner, at, size)
        } else {
            self.read_value(inner, at, distance(at, limit))
        }
    }

    fn read_curve_end(&self, items: Vec<Value>, cursor: usize, limit: usize) -> (result: Result<
        (Value, usize),
        CodecError,
    >)
        requires
            limit <= self.bytes@.len(),
        ensures
            match curve_end(self@, value::models(items@), cursor as nat, limit as nat) {
                Ok((m, end)) => result matches Ok(r) && r.0@ == m && r.1 == end,
                Err(f) => result matches Err(e) && e@ == f,
            },
    {
        if cursor > limit || limit - cursor < 2 {
            return Err(malformed(cursor, "curve trailing fields"));
        }
        let way: &str = match byte(self.bytes, cursor) {
            Ok(way) => match interpolation_type(way) {
                Some(way) => way,
                None => return Err(malformed(cursor, "curve interpolation type")),
            },
            Err(error) => return Err(error),
        };
        let link: &str = match byte(self.bytes, cursor + 1) {
            Ok(link) => match segment_link_type(link) {
                Some(link) => link,
                None => return Err(malformed(cursor + 1, "curve link type")),
            },
            Err(error) => return Err(error),
        };
        let mut fields: Vec<(String, Value)> = Vec::new();
        set_entry(&mut fields, "InterpolationType", Value::text(way));
        set_entry(&mut fields, "LinkType", Value::text(link));
        set_entry(&mut fields, "Elements", Value::Array(items));
        Ok((Value::Object(fields), cursor + 2))
    }

    fn read_legacy_curve(&self, inner: &[char], start: usize, size: usize) -> (result: Result<
        (Value, usize),
        CodecError,
    >)
        requires
            start + size <= self.bytes@.len(),
        ensures
            match curve(self@, inner@, start as nat, size as nat) {
                Ok((m, end)) => result matches Ok(r) && r.0@ == m && r.1 == end,
                Err(f) => result matches Err(e) && e@ == f,
            },
        decreases size, inner@.len(), 4nat, 0nat,
    {
        let total: usize = self.bytes.len();
        let count: u32 = match u32_at(self.bytes, start) {
            Ok(count) => count,
            Err(error) => return Err(error),
        };
        let limit: usize = start + size;
        let leaf: bool = self.is_leaf(inner);
        let ghost wanted = points(
            self@,
            inner@,
            start as nat + 4,
            limit as nat,
            count as nat,
            Seq::empty(),
        );
        let mut items: Vec<Value> = Vec::new();
        let mut cursor: usize = start + 4;
        let mut left: u32 = count;
        while left > 0
            invariant
                start + 4 <= cursor,
                total == self.bytes@.len(),
                limit == start + size,
                limit <= total,
                leaf == (shape(self@, inner@) is Leaf),
                wanted == points(
                    self@,
                    inner@,
                    cursor as nat,
                    limit as nat,
                    left as nat,
                    value::models(items@),
                ),
                curve(self@, inner@, start as nat, size as nat) == match wanted {
                    Err(f) => Err(f),
                    Ok((items, cursor)) => curve_end(self@, items, cursor, limit as nat),
                },
            decreases left,
        {
            let bits: u32 = match u32_at(self.bytes, cursor) {
                Ok(bits) => bits,
                Err(error) => return Err(error),
            };
            let at: usize = cursor + 4;
            let (item, behind): (Value, usize) = match self.read_point(inner, leaf, at, limit) {
                Ok(reading) => reading,
                Err(error) => return Err(error),
            };
            if behind <= at || behind > limit {
                return Err(malformed(at, "curve element bounds"));
            }
            let placed: Value = new_point(bits, item);
            proof {
                value::lemma_models_push(items@, placed);
            }
            items.push(placed);
            cursor = behind;
            left = left - 1;
        }
        self.read_curve_end(items, cursor, limit)
    }

    fn read_appendix(
        &self,
        t: &[char],
        cursor: usize,
        end: usize,
        object: &mut Vec<(String, Value)>,
    ) -> (result: Result<usize, CodecError>)
        ensures
            match appendix(
                self@,
                t@,
                cursor as nat,
                end as nat,
                value::entry_models(old(object)@),
            ) {
                Ok((fields, last)) => result matches Ok(r) && value::entry_models(final(object)@)
                    == fields && r == last,
                Err(f) => result matches Err(e) && e@ == f,
            },
    {
        if is_text(t, "worldStreamingSector") {
            self.read_streaming_sector_appendix(cursor, end, object)
        } else if is_text(t, "gameDeviceResourceData") {
            self.read_device_data_appendix(cursor, end, object)
        } else if is_text(t, "worldStreamingWorld") {
            Ok(end)
        } else {
            Ok(cursor)
        }
    }

    /// Reads a class.
    pub fn read_class(&self, t: &[char], start: usize, size: usize) -> (result: Result<
        (Value, usize),
        CodecError,
    >)
        ensures
            match class_at(self@, t@, start as nat, size as nat) {
                Ok((m, end)) => result matches Ok(r) && r.0@ == m && r.1 == end,
                Err(f) => result matches Err(e) && e@ == f,
            },
        decreases size, t@.len(), 1nat, 0nat,
    {
        if start > self.bytes.len() || size > self.bytes.len() - start {
            return Err(malformed(start, "class bounds"));
        }
        let end: usize = start + size;
        let name: String = text_of(t);
        if is_text(t, "AreaShapeOutline") {
            let content: String = encode_base64(part(self.bytes, start, end));
            return Ok((new_tagged(name.as_str(), "buffer", content.as_str()), end));
        }
        if is_opaque_custom_data(t) {
            let content: String = encode_base64(part(self.bytes, start, end));
            return Ok((new_tagged(name.as_str(), "$rawData", content.as_str()), end));
        }
        let marker: u8 = match byte(self.bytes, start) {
            Ok(marker) => marker,
            Err(error) => return Err(error),
        };
        if marker != 0 {
            return Err(malformed(start, "class marker"));
        }
        let mut object: Vec<(String, Value)> = typed_fields(name.as_str());
        let cursor: usize = match self.read_properties(t, start + 1, end, &mut object) {
            Ok(cursor) => cursor,
            Err(error) => return Err(error),
        };
        let last: usize = if is_text(t, "CMaterialInstance") {
            if start >= cursor {
                return Err(malformed(cursor, "class bounds"));
            }
            match self.read_material_instance_appendix(t, cursor, end, &mut object) {
                Ok(last) => last,
                Err(error) => return Err(error),
            }
        } else {
            match self.read_appendix(t, cursor, end, &mut object) {
                Ok(last) => last,
                Err(error) => return Err(error),
            }
        };
        if last < end && red_types::is_opaque_appendix(t) {
            let tail: String = encode_base64(part(self.bytes, last, end));
            set_entry(&mut object, "$rawTail", Value::Text(tail));
            return Ok((Value::Object(object), end));
        }
        Ok((Value::Object(object), last))
    }

    fn read_property(
        &self,
        class: &[char],
        name: &[char],
        t: &[char],
        at: usize,
        size: usize,
    ) -> (result: Result<(Value, usize), CodecError>)
        requires
            at + size <= usize::MAX,
        ensures
            match (if is_package(class@, name@, t@) {
                match package_property(self@, class@, t@, at as nat) {
                    Err(f) => Err(f),
                    Ok(m) => Ok((m, at as nat + size as nat)),
                }
            } else {
                value_at(self@, t@, at as nat, size as nat)
            }) {
                Ok((m, end)) => result matches Ok(r) && r.0@ == m && r.1 == end,
                Err(f) => result matches Err(e) && e@ == f,
            },
        decreases size, t@.len(), 3nat, 0nat,
    {
        if (is_text(t, "DataBuffer") || is_text(t, "serializationDeferredDataBuffer"))
            && red_types::is_redpackage_property(class, name) {
            return match self.package_property(class, t, at) {
                Ok(value) => Ok((value, at + size)),
                Err(error) => Err(error),
            };
        }
        self.read_value(t, at, size)
    }

    fn read_properties(
        &self,
        t: &[char],
        from: usize,
        end: usize,
        object: &mut Vec<(String, Value)>,
    ) -> (result: Result<usize, CodecError>)
        requires
            end <= self.bytes@.len(),
        ensures
            match properties(
                self@,
                t@,
                from as nat,
                end as nat,
                value::entry_models(old(object)@),
            ) {
                Ok((fields, last)) => result matches Ok(r) && value::entry_models(final(object)@)
                    == fields && r == last,
                Err(f) => result matches Err(e) && e@ == f,
            },
        decreases span(from as nat, end as nat), t@.len(), 0nat, 0nat,
    {
        let ghost wanted = properties(
            self@,
            t@,
            from as nat,
            end as nat,
            value::entry_models(object@),
        );
        let total: usize = self.bytes.len();
        let mut cursor: usize = from;
        let mut ended: bool = false;
        while !ended
            invariant
                total == self.bytes@.len(),
                end <= total,
                from <= cursor,
                wanted == properties(
                    self@,
                    t@,
                    from as nat,
                    end as nat,
                    value::entry_models(old(object)@),
                ),
                !ended ==> wanted == properties(
                    self@,
                    t@,
                    cursor as nat,
                    end as nat,
                    value::entry_models(object@),
                ),
                ended ==> wanted == Ok::<(Seq<(Seq<char>, value::Model)>, nat), Fault>(
                    (value::entry_models(object@), cursor as nat),
                ),
            decreases
                (if ended {
                    0int
                } else {
                    total + 1 - cursor
                }),
        {
            let name_index: u16 = match u16_at(self.bytes, cursor) {
                Ok(index) => index,
                Err(error) => return Err(error),
            };
            if name_index == 0 {
                cursor = cursor + 2;
                ended = true;
            } else {
                let type_index: u16 = match u16_at(self.bytes, cursor + 2) {
                    Ok(index) => index,
                    Err(error) => return Err(error),
                };
                let size: u32 = match u32_at(self.bytes, cursor + 4) {
                    Ok(size) => size,
                    Err(error) => return Err(error),
                };
                let at: usize = cursor + 8;
                if size < 4 {
                    return Err(malformed(at, "property size"));
                }
                let payload: usize = (size - 4) as usize;
                if at > end || payload > end - at {
                    return Err(malformed(at, "property bounds"));
                }
                let name: &str = match self.name(name_index as usize, at) {
                    Ok(name) => name,
                    Err(error) => return Err(error),
                };
                let red_type: &str = match self.name(type_index as usize, at) {
                    Ok(name) => name,
                    Err(error) => return Err(error),
                };
                let name_chars: Vec<char> = chars_of(name);
                let type_chars: Vec<char> = chars_of(red_type);
                let (value, consumed): (Value, usize) = match self.read_property(
                    t,
                    &name_chars,
                    &type_chars,
                    at,
                    payload,
                ) {
                    Ok(reading) => reading,
                    Err(error) => return Err(error),
                };
                if consumed != at + payload {
                    return Err(malformed(consumed, "property trailing bytes"));
                }
                set_entry(object, name, value);
                cursor = at + payload;
            }
        }
        Ok(cursor)
    }

    fn read_material_instance_appendix(
        &self,
        t: &[char],
        from: usize,
        end: usize,
        object: &mut Vec<(String, Value)>,
    ) -> (result: Result<usize, CodecError>)
        requires
            end <= self.bytes@.len(),
        ensures
            match material_values(
                self@,
                t@,
                from as nat,
                end as nat,
                value::entry_models(old(object)@),
            ) {
                Ok((fields, last)) => result matches Ok(r) && value::entry_models(final(object)@)
                    == fields && r == last,
                Err(f) => result matches Err(e) && e@ == f,
            },
        decreases span(from as nat, end as nat), t@.len(), 0nat, 1nat,
    {
        let total: usize = self.bytes.len();
        let count: u32 = match u32_at(self.bytes, from) {
            Ok(count) => count,
            Err(error) => return Err(error),
        };
        let ghost wanted = materials(
            self@,
            t@,
            from as nat + 4,
            end as nat,
            count as nat,
            Seq::empty(),
        );
        let mut items: Vec<Value> = Vec::new();
        let mut cursor: usize = from + 4;
        let mut left: u32 = count;
        while left > 0
            invariant
                total == self.bytes@.len(),
                end <= total,
                from + 4 <= cursor <= total,
                material_values(
                    self@,
                    t@,
                    from as nat,
                    end as nat,
                    value::entry_models(old(object)@),
                ) == match wanted {
                    Err(f) => Err(f),
                    Ok((items, last)) => Ok(
                        (
                            entries::put(
                                value::entry_models(old(object)@),
                                "values"@,
                                value::Model::Array(items),
                            ),
                            last,
                        ),
                    ),
                },
                wanted == materials(
                    self@,
                    t@,
                    cursor as nat,
                    end as nat,
                    left as nat,
                    value::models(items@),
                ),
            decreases left,
        {
            let size: u32 = match u32_at(self.bytes, cursor) {
                Ok(size) => size,
                Err(error) => return Err(error),
            };
            if cursor > end || size as usize > end - cursor {
                return Err(malformed(cursor, "material value bounds"));
            }
            let name: &str = match self.name_there(cursor + 4, cursor + 4) {
                Ok(name) => name,
                Err(error) => return Err(error),
            };
            let red_type: &str = match self.name_there(cursor + 6, cursor + 6) {
                Ok(name) => name,
                Err(error) => return Err(error),
            };
            if size < 8 {
                return Err(malformed(cursor + 8, "material value trailing bytes"));
            }
            let type_chars: Vec<char> = chars_of(red_type);
            let (value, consumed): (Value, usize) = match self.read_value(
                &type_chars,
                cursor + 8,
                (size - 8) as usize,
            ) {
                Ok(reading) => reading,
                Err(error) => return Err(error),
            };
            if consumed != cursor + size as usize {
                return Err(malformed(consumed, "material value trailing bytes"));
            }
            let mut fields: Vec<(String, Value)> = typed_fields(red_type);
            set_entry(&mut fields, name, value);
            let item: Value = Value::Object(fields);
            proof {
                value::lemma_models_push(items@, item);
            }
            items.push(item);
            cursor = cursor + size as usize;
            left = left - 1;
        }
        set_entry(object, "values", Value::Array(items));
        Ok(cursor)
    }
}

} // verus!
