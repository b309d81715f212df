//! Mesh resources: the vertex streams, indices and materials of their render
//! chunks. Coordinates stay in the integers in which they are stored.

use crate::binary;
use crate::binary::{read_u16_le, read_u32_le};
use crate::codec_reader::to_signed16;
use crate::number_text;
use crate::number_text::decimal_text;
use crate::redpackage;
use crate::text;
use crate::text::{decode_base64, push_text, same_text};
use crate::value;
use crate::value::{copy_text, Number, Value};
use vstd::prelude::*;

verus! {

/// Reports meshes that cannot be decoded.
#[derive(Debug, PartialEq, Eq)]
pub enum MeshError {
    /// A buffer is not base64.
    Base64,
    /// A member is missing.
    Missing { name: &'static str },
    /// A member is not what it has to be.
    Member { name: &'static str, problem: &'static str },
    /// Something else is wrong.
    Reason { reason: &'static str },
    /// A stream index is out of range.
    StreamIndex { index: usize },
    /// A vertex index is out of range.
    VertexIndex { vertex: u16, count: usize },
    /// A range lies outside the buffer.
    Range { start: usize, end: usize, length: usize },
}

/// What an error says.
pub ghost enum Fault {
    Base64,
    Missing(Seq<char>),
    Member(Seq<char>, Seq<char>),
    Reason(Seq<char>),
    StreamIndex(nat),
    VertexIndex(nat, nat),
    Range(nat, nat, nat),
}

impl View for MeshError {
    type V = Fault;

    open spec fn view(&self) -> Fault {
        match self {
            MeshError::Base64 => Fault::Base64,
            MeshError::Missing { name } => Fault::Missing(name@),
            MeshError::Member { name, problem } => Fault::Member(name@, problem@),
            MeshError::Reason { reason } => Fault::Reason(reason@),
            MeshError::StreamIndex { index } => Fault::StreamIndex(*index as nat),
            MeshError::VertexIndex { vertex, count } => Fault::VertexIndex(
                *vertex as nat,
                *count as nat,
            ),
            MeshError::Range { start, end, length } => Fault::Range(
                *start as nat,
                *end as nat,
                *length as nat,
            ),
        }
    }
}

/// The words of an error.
pub open spec fn message(fault: Fault) -> Seq<char> {
    match fault {
        Fault::Base64 => "could not decode mesh buffer"@,
        Fault::Missing(name) => "missing "@ + name,
        Fault::Member(name, problem) => name + problem,
        Fault::Reason(reason) => reason,
        Fault::StreamIndex(index) => "stream index "@ + number_text::decimal(index)
            + " is out of range"@,
        Fault::VertexIndex(index, count) => "index "@ + number_text::decimal(index)
            + " exceeds vertex count "@ + number_text::decimal(count),
        Fault::Range(start, end, length) => "mesh buffer range "@ + number_text::decimal(start)
            + ".."@ + number_text::decimal(end) + " exceeds "@ + number_text::decimal(length)
            + " bytes"@,
    }
}

impl MeshError {
    /// Says what is wrong.
    pub fn describe(&self) -> (result: String)
        ensures
            result@ == message(self@),
    {
        let mut text: String = String::new();
        match self {
            MeshError::Base64 => push_text(&mut text, "could not decode mesh buffer"),
            MeshError::Missing { name } => {
                push_text(&mut text, "missing ");
                push_text(&mut text, name);
            },
            MeshError::Member { name, problem } => {
                push_text(&mut text, name);
                push_text(&mut text, problem);
            },
            MeshError::Reason { reason } => push_text(&mut text, reason),
            MeshError::StreamIndex { index } => {
                push_text(&mut text, "stream index ");
                push_text(&mut text, decimal_text(*index as u64).as_str());
                push_text(&mut text, " is out of range");
            },
            MeshError::VertexIndex { vertex, count } => {
                push_text(&mut text, "index ");
                push_text(&mut text, decimal_text(*vertex as u64).as_str());
                push_text(&mut text, " exceeds vertex count ");
                push_text(&mut text, decimal_text(*count as u64).as_str());
            },
            MeshError::Range { start, end, length } => {
                push_text(&mut text, "mesh buffer range ");
                push_text(&mut text, decimal_text(*start as u64).as_str());
                push_text(&mut text, "..");
                push_text(&mut text, decimal_text(*end as u64).as_str());
                push_text(&mut text, " exceeds ");
                push_text(&mut text, decimal_text(*length as u64).as_str());
                push_text(&mut text, " bytes");
            },
        }
        assert(text@ =~= message(self@));
        text
    }
}

/// The unsigned integer of a number that is one of 64 bits.
pub open spec fn unsigned(m: value::Model) -> Option<nat> {
    match value::integer_of(m) {
        Some(n) => if 0 <= n <= u64::MAX {
            Some(n as nat)
        } else {
            None
        },
        None => None,
    }
}

/// Whether a number is finite. The floats that are not have no digits.
pub open spec fn is_finite(number: Number) -> bool {
    match (number.integer, number.single, number.double) {
        (Some(_), _, _) => true,
        (None, Some(bits), _) => (bits / 0x80_0000) % 0x100 != 0xff,
        (None, None, Some(bits)) => (bits / 0x10_0000_0000_0000) % 0x800 != 0x7ff,
        (None, None, None) => false,
    }
}

/// A member.
pub open spec fn field(m: value::Model, name: Seq<char>) -> Result<value::Model, Fault> {
    match value::member(m, name) {
        Some(found) => Ok(found),
        None => Err(Fault::Missing(name)),
    }
}

/// The items of a member.
pub open spec fn items_in(m: value::Model, name: Seq<char>) -> Result<Seq<value::Model>, Fault> {
    match field(m, name) {
        Err(f) => Err(f),
        Ok(value::Model::Array(items)) => Ok(items),
        Ok(_) => Err(Fault::Member(name, " is not an array"@)),
    }
}

/// The text of a member.
pub open spec fn text_in(m: value::Model, name: Seq<char>) -> Result<Seq<char>, Fault> {
    match field(m, name) {
        Err(f) => Err(f),
        Ok(value::Model::Text(text)) => Ok(text),
        Ok(_) => Err(Fault::Member(name, " is not a string"@)),
    }
}

/// The unsigned integer of a member that has to fit the machine.
pub open spec fn count_in(m: value::Model, name: Seq<char>) -> Result<nat, Fault> {
    match field(m, name) {
        Err(f) => Err(f),
        Ok(found) => match unsigned(found) {
            None => Err(Fault::Member(name, " is not an unsigned integer"@)),
            Some(n) => if n > usize::MAX {
                Err(Fault::Member(name, " exceeds platform size"@))
            } else {
                Ok(n)
            },
        },
    }
}

/// The unsigned integer of a member, zero where the member is missing.
pub open spec fn number_or_zero(m: value::Model, name: Seq<char>) -> Result<nat, Fault> {
    match value::member(m, name) {
        None => Ok(0),
        Some(found) => match unsigned(found) {
            None => Err(Fault::Member(name, " is not an unsigned integer"@)),
            Some(n) => Ok(n),
        },
    }
}

/// The number of a member.
pub open spec fn number_in(m: value::Model, name: Seq<char>) -> Result<Number, Fault> {
    match field(m, name) {
        Err(f) => Err(f),
        Ok(value::Model::Number(number)) => if is_finite(number) {
            Ok(number)
        } else {
            Err(Fault::Member(name, " is not a number"@))
        },
        Ok(_) => Err(Fault::Member(name, " is not a number"@)),
    }
}

/// The first three components of a vector.
pub open spec fn vector(m: value::Model) -> Result<(Number, Number, Number), Fault> {
    match number_in(m, "X"@) {
        Err(f) => Err(f),
        Ok(x) => match number_in(m, "Y"@) {
            Err(f) => Err(f),
            Ok(y) => match number_in(m, "Z"@) {
                Err(f) => Err(f),
                Ok(z) => Ok((x, y, z)),
            },
        },
    }
}

/// The offsets in an array: its first `n` items.
pub open spec fn offsets(items: Seq<value::Model>, n: nat) -> Result<Seq<nat>, Fault>
    decreases n,
{
    if n == 0 {
        Ok(Seq::empty())
    } else {
        match offsets(items, (n - 1) as nat) {
            Err(f) => Err(f),
            Ok(before) => match unsigned(items[n - 1]) {
                Some(offset) => if offset <= usize::MAX {
                    Ok(before.push(offset))
                } else {
                    Err(Fault::Reason("array contains an invalid offset"@))
                },
                None => Err(Fault::Reason("array contains an invalid offset"@)),
            },
        }
    }
}

/// The offsets in a member.
pub open spec fn offsets_in(m: value::Model, name: Seq<char>) -> Result<Seq<nat>, Fault> {
    match field(m, name) {
        Err(f) => Err(f),
        Ok(value::Model::Array(items)) => offsets(items, items.len()),
        Ok(_) => Err(Fault::Reason("expected integer array"@)),
    }
}

/// The text of a name, a reference or a plain text.
pub open spec fn red_text(m: value::Model) -> Result<Seq<char>, Fault> {
    let found = match value::member(m, "$value"@) {
        Some(inner) => inner,
        None => match value::member(m, "DepotPath"@) {
            Some(inner) => inner,
            None => m,
        },
    };
    match value::text_of(found) {
        Some(text) => Ok(text),
        None => Err(Fault::Reason("invalid RED string"@)),
    }
}

/// The texts of the first `n` items.
pub open spec fn red_texts(items: Seq<value::Model>, n: nat) -> Result<Seq<Seq<char>>, Fault>
    decreases n,
{
    if n == 0 {
        Ok(Seq::empty())
    } else {
        match red_texts(items, (n - 1) as nat) {
            Err(f) => Err(f),
            Ok(before) => match red_text(items[n - 1]) {
                Err(f) => Err(f),
                Ok(text) => Ok(before.push(text)),
            },
        }
    }
}

/// The materials of one appearance.
pub open spec fn appearance(m: value::Model) -> Result<Seq<Seq<char>>, Fault> {
    match field(m, "Data"@) {
        Err(f) => Err(f),
        Ok(data) => match items_in(data, "chunkMaterials"@) {
            Err(f) => Err(f),
            Ok(items) => red_texts(items, items.len()),
        },
    }
}

/// The materials of the first `n` appearances.
pub open spec fn appearances(items: Seq<value::Model>, n: nat) -> Result<
    Seq<Seq<Seq<char>>>,
    Fault,
>
    decreases n,
{
    if n == 0 {
        Ok(Seq::empty())
    } else {
        match appearances(items, (n - 1) as nat) {
            Err(f) => Err(f),
            Ok(before) => match appearance(items[n - 1]) {
                Err(f) => Err(f),
                Ok(names) => Ok(before.push(names)),
            },
        }
    }
}

/// The material of a chunk. An appearance that names too few is repeated.
pub open spec fn chunk_material(
    materials: Seq<Seq<char>>,
    index: nat,
    count: nat,
) -> Seq<char> {
    if materials.len() == 0 {
        "default"@
    } else if index < materials.len() {
        materials[index as int]
    } else if materials.len() <= count {
        materials[(index - materials.len()) % (materials.len() as int)]
    } else {
        materials[(index - materials.len()) % (count as int)]
    }
}

/// The element of a vertex layout with a usage, among the first `n`.
pub open spec fn usage_element(
    elements: Seq<value::Model>,
    usage: Seq<char>,
    usage_index: nat,
    from: nat,
) -> Option<value::Model>
    decreases elements.len() - from,
{
    if from >= elements.len() {
        None
    } else if has_usage(elements[from as int], usage, usage_index) {
        Some(elements[from as int])
    } else {
        usage_element(elements, usage, usage_index, from + 1)
    }
}

/// An unsigned member, zero where it is missing or something else.
pub open spec fn number_else_zero(m: value::Model, name: Seq<char>) -> nat {
    match value::member(m, name) {
        None => 0,
        Some(found) => match unsigned(found) {
            None => 0,
            Some(n) => n,
        },
    }
}

/// Whether an element of a vertex layout has a usage.
pub open spec fn has_usage(element: value::Model, usage: Seq<char>, usage_index: nat) -> bool {
    let named = match value::member(element, "usage"@) {
        None => false,
        Some(found) => value::text_of(found) == Some(usage),
    };
    named && number_else_zero(element, "usageIndex"@) == usage_index
}

/// Where the stream with a usage starts, if there is one.
pub open spec fn usage_offset(
    elements: Seq<value::Model>,
    byte_offsets: Seq<nat>,
    usage: Seq<char>,
    usage_index: nat,
) -> Result<Option<nat>, Fault> {
    match usage_element(elements, usage, usage_index, 0) {
        None => Ok(None),
        Some(element) => {
            let stream = number_else_zero(element, "streamIndex"@);
            if stream > usize::MAX {
                Err(Fault::Reason("vertex stream index exceeds platform size"@))
            } else if stream < byte_offsets.len() {
                Ok(Some(byte_offsets[stream as int]))
            } else {
                Err(Fault::StreamIndex(stream))
            }
        },
    }
}

/// Where an element of a stream starts.
pub open spec fn element_start(base: nat, stride: nat, index: nat, width: nat, length: nat) -> Result<
    nat,
    Fault,
> {
    let start = base + index * stride;
    if start > usize::MAX {
        Err(Fault::Reason("mesh buffer offset overflow"@))
    } else if start + width > usize::MAX {
        Err(Fault::Reason("mesh buffer range overflow"@))
    } else if start + width > length {
        Err(Fault::Range(start, start + width, length))
    } else {
        Ok(start)
    }
}

/// Where the first `n` elements of a stream start.
pub open spec fn element_starts(base: nat, stride: nat, width: nat, length: nat, n: nat) -> Result<
    Seq<nat>,
    Fault,
>
    decreases n,
{
    if n == 0 {
        Ok(Seq::empty())
    } else {
        match element_starts(base, stride, width, length, (n - 1) as nat) {
            Err(f) => Err(f),
            Ok(before) => match element_start(base, stride, (n - 1) as nat, width, length) {
                Err(f) => Err(f),
                Ok(start) => Ok(before.push(start)),
            },
        }
    }
}

/// Two bytes as a number.
pub open spec fn word(bytes: Seq<u8>, at: nat) -> nat {
    binary::le_value(bytes.subrange(at as int, (at + 2) as int))
}

/// Four bytes as a number.
pub open spec fn double_word(bytes: Seq<u8>, at: nat) -> nat {
    binary::le_value(bytes.subrange(at as int, (at + 4) as int))
}

/// The positions of a stream, in the integers in which they are stored.
pub open spec fn positions_at(bytes: Seq<u8>, starts: Seq<nat>) -> Seq<(i16, i16, i16)> {
    starts.map_values(
        |at: nat|
            (
                redpackage::signed16(word(bytes, at)) as i16,
                redpackage::signed16(word(bytes, at + 2)) as i16,
                redpackage::signed16(word(bytes, at + 4)) as i16,
            ),
    )
}

/// The packed vectors of a stream.
pub open spec fn packed_at(bytes: Seq<u8>, starts: Seq<nat>) -> Seq<u32> {
    starts.map_values(|at: nat| double_word(bytes, at) as u32)
}

/// The colours of a stream.
pub open spec fn colors_at(bytes: Seq<u8>, starts: Seq<nat>) -> Seq<(u8, u8, u8, u8)> {
    starts.map_values(
        |at: nat|
            (bytes[at as int], bytes[(at + 1) as int], bytes[(at + 2) as int], bytes[(at + 3) as int]),
    )
}

/// The texture coordinates of a stream, in the bits of half floats.
pub open spec fn coordinates_at(bytes: Seq<u8>, starts: Seq<nat>) -> Seq<(u16, u16)> {
    starts.map_values(|at: nat| (word(bytes, at) as u16, word(bytes, at + 2) as u16))
}

/// The first `n` vertex indices.
pub open spec fn indices_at(bytes: Seq<u8>, base: nat, vertices: nat, n: nat) -> Result<
    Seq<u16>,
    Fault,
>
    decreases n,
{
    if n == 0 {
        Ok(Seq::empty())
    } else {
        match indices_at(bytes, base, vertices, (n - 1) as nat) {
            Err(f) => Err(f),
            Ok(before) => match element_start(base, 2, (n - 1) as nat, 2, bytes.len()) {
                Err(f) => Err(f),
                Ok(start) => if word(bytes, start) >= vertices {
                    Err(Fault::VertexIndex(word(bytes, start), vertices))
                } else {
                    Ok(before.push(word(bytes, start) as u16))
                },
            },
        }
    }
}

/// Indices with the first two of each whole triangle changed over.
pub open spec fn turned(indices: Seq<u16>) -> Seq<u16> {
    let whole = indices.len() - indices.len() % 3;
    Seq::new(
        indices.len(),
        |i: int|
            if i < whole && i % 3 == 0 {
                indices[i + 1]
            } else if i < whole && i % 3 == 1 {
                indices[i - 1]
            } else {
                indices[i]
            },
    )
}

/// How the vertices of a chunk are laid out.
pub ghost struct LayoutModel {
    pub vertices: nat,
    pub indices: nat,
    pub position: nat,
    pub stride: nat,
    pub coordinates: Option<nat>,
    pub coordinates_1: Option<nat>,
    pub normal: Option<nat>,
    pub tangent: Option<nat>,
    pub color: Option<nat>,
}

/// The counts of a chunk, and the parts of its layout: offsets, strides and
/// elements.
pub open spec fn layout_parts(chunk: value::Model) -> Result<
    (nat, nat, Seq<nat>, Seq<nat>, Seq<value::Model>),
    Fault,
> {
    match count_in(chunk, "numVertices"@) {
        Err(f) => Err(f),
        Ok(vertices) => match count_in(chunk, "numIndices"@) {
            Err(f) => Err(f),
            Ok(indices) => match field(chunk, "chunkVertices"@) {
                Err(f) => Err(f),
                Ok(content) => match field(content, "vertexLayout"@) {
                    Err(f) => Err(f),
                    Ok(layout) => match offsets_in(content, "byteOffsets"@) {
                        Err(f) => Err(f),
                        Ok(starts) => match offsets_in(layout, "slotStrides"@) {
                            Err(f) => Err(f),
                            Ok(strides) => match items_in(layout, "elements"@) {
                                Err(f) => Err(f),
                                Ok(elements) => Ok((vertices, indices, starts, strides, elements)),
                            },
                        },
                    },
                },
            },
        },
    }
}

/// How the vertices of a chunk are laid out.
pub open spec fn layout_of(chunk: value::Model) -> Result<LayoutModel, Fault> {
    match layout_parts(chunk) {
        Err(f) => Err(f),
        Ok((vertices, indices, starts, strides, elements)) => match usage_offset(
            elements,
            starts,
            "PS_Position"@,
            0,
        ) {
            Err(f) => Err(f),
            Ok(None) => Err(Fault::Reason("vertex layout has no position stream"@)),
            Ok(Some(position)) => if strides.len() == 0 {
                Err(Fault::Reason("vertex layout has no position stride"@))
            } else {
                match usage_offset(elements, starts, "PS_TexCoord"@, 0) {
                    Err(f) => Err(f),
                    Ok(coordinates) => match usage_offset(elements, starts, "PS_TexCoord"@, 1) {
                        Err(f) => Err(f),
                        Ok(coordinates_1) => match usage_offset(
                            elements,
                            starts,
                            "PS_Normal"@,
                            0,
                        ) {
                            Err(f) => Err(f),
                            Ok(normal) => match usage_offset(elements, starts, "PS_Tangent"@, 0) {
                                Err(f) => Err(f),
                                Ok(tangent) => match usage_offset(
                                    elements,
                                    starts,
                                    "PS_Color"@,
                                    0,
                                ) {
                                    Err(f) => Err(f),
                                    Ok(color) => Ok(
                                        LayoutModel {
                                            vertices,
                                            indices,
                                            position,
                                            stride: strides[0],
                                            coordinates,
                                            coordinates_1,
                                            normal,
                                            tangent,
                                            color,
                                        },
                                    ),
                                },
                            },
                        },
                    },
                }
            },
        },
    }
}

/// Where the elements of a stream start, if there is one. The stream starts
/// `shift` bytes behind its offset.
pub open spec fn stream_starts(
    offset: Option<nat>,
    shift: nat,
    stride: nat,
    length: nat,
    n: nat,
) -> Result<Seq<nat>, Fault> {
    match offset {
        None => Ok(Seq::empty()),
        Some(offset) => if offset + shift > usize::MAX {
            Err(Fault::Reason("mesh buffer offset overflow"@))
        } else {
            element_starts(offset + shift, stride, 4, length, n)
        },
    }
}

/// Where the elements of all streams of a chunk start.
pub ghost struct StreamsModel {
    pub positions: Seq<nat>,
    pub normals: Seq<nat>,
    pub tangents: Seq<nat>,
    pub colors: Seq<nat>,
    pub coordinates: Seq<nat>,
    pub coordinates_1: Seq<nat>,
}

/// The bytes that two vectors take, where both are there, or one.
pub open spec fn shared_stride(second: Option<nat>) -> nat {
    if second is Some {
        8
    } else {
        4
    }
}

/// The bytes that a first vector takes, where there is one.
pub open spec fn shared_shift(first: Option<nat>) -> nat {
    if first is Some {
        4
    } else {
        0
    }
}

/// Where the elements of all streams of a chunk start.
pub open spec fn streams_of(layout: LayoutModel, length: nat) -> Result<StreamsModel, Fault> {
    let n = layout.vertices;
    match element_starts(layout.position, layout.stride, 6, length, n) {
        Err(f) => Err(f),
        Ok(positions) => match stream_starts(
            layout.normal,
            0,
            shared_stride(layout.tangent),
            length,
            n,
        ) {
            Err(f) => Err(f),
            Ok(normals) => match stream_starts(
                layout.tangent,
                shared_shift(layout.normal),
                shared_stride(layout.tangent),
                length,
                n,
            ) {
                Err(f) => Err(f),
                Ok(tangents) => match stream_starts(
                    layout.color,
                    0,
                    shared_stride(layout.coordinates_1),
                    length,
                    n,
                ) {
                    Err(f) => Err(f),
                    Ok(colors) => match stream_starts(layout.coordinates, 0, 4, length, n) {
                        Err(f) => Err(f),
                        Ok(coordinates) => match stream_starts(
                            layout.coordinates_1,
                            shared_shift(layout.color),
                            shared_stride(layout.coordinates_1),
                            length,
                            n,
                        ) {
                            Err(f) => Err(f),
                            Ok(coordinates_1) => Ok(
                                StreamsModel {
                                    positions,
                                    normals,
                                    tangents,
                                    colors,
                                    coordinates,
                                    coordinates_1,
                                },
                            ),
                        },
                    },
                },
            },
        },
    }
}

/// Where the indices of a chunk start.
pub open spec fn indices_start(chunk: value::Model, base: nat) -> Result<nat, Fault> {
    match field(chunk, "chunkIndices"@) {
        Err(f) => Err(f),
        Ok(content) => {
            let relative = number_else_zero(content, "teOffset"@);
            if relative > usize::MAX {
                Err(Fault::Reason("index buffer offset exceeds platform size"@))
            } else if base + relative > usize::MAX {
                Err(Fault::Reason("index buffer offset overflow"@))
            } else {
                Ok(base + relative)
            }
        },
    }
}

/// The geometry of a chunk.
pub ghost struct MeshModel {
    pub name: Seq<char>,
    pub positions: Seq<(i16, i16, i16)>,
    pub normals: Seq<u32>,
    pub tangents: Seq<u32>,
    pub colors: Seq<(u8, u8, u8, u8)>,
    pub tex_coords: Seq<(u16, u16)>,
    pub tex_coords_1: Seq<(u16, u16)>,
    pub indices: Seq<u16>,
    pub material_names: Seq<Seq<char>>,
}

/// The name of a chunk, with at least two digits.
pub open spec fn chunk_name(index: nat, lod: nat) -> Seq<char> {
    "submesh_"@ + (if index < 10 {
        "0"@
    } else {
        Seq::empty()
    }) + number_text::decimal(index) + "_LOD_"@ + number_text::decimal(lod)
}

/// The material of a chunk in each appearance.
pub open spec fn chunk_materials(
    looks: Seq<Seq<Seq<char>>>,
    index: nat,
    count: nat,
) -> Seq<Seq<char>> {
    looks.map_values(|materials: Seq<Seq<char>>| chunk_material(materials, index, count))
}

/// What the chunks of a mesh share.
pub ghost struct SceneModel {
    pub buffer: Seq<u8>,
    pub scale: (Number, Number, Number),
    pub offset: (Number, Number, Number),
    pub indices: nat,
    pub looks: Seq<Seq<Seq<char>>>,
    pub chunks: Seq<value::Model>,
}

/// The geometry of one chunk.
pub open spec fn chunk_mesh(scene: SceneModel, index: nat, lod: nat) -> Result<MeshModel, Fault> {
    let chunk = scene.chunks[index as int];
    let bytes = scene.buffer;
    match layout_of(chunk) {
        Err(f) => Err(f),
        Ok(layout) => match streams_of(layout, bytes.len()) {
            Err(f) => Err(f),
            Ok(streams) => match indices_start(chunk, scene.indices) {
                Err(f) => Err(f),
                Ok(base) => match indices_at(bytes, base, layout.vertices, layout.indices) {
                    Err(f) => Err(f),
                    Ok(indices) => Ok(
                        MeshModel {
                            name: chunk_name(index, lod),
                            positions: positions_at(bytes, streams.positions),
                            normals: packed_at(bytes, streams.normals),
                            tangents: packed_at(bytes, streams.tangents),
                            colors: colors_at(bytes, streams.colors),
                            tex_coords: coordinates_at(bytes, streams.coordinates),
                            tex_coords_1: coordinates_at(bytes, streams.coordinates_1),
                            indices: turned(indices),
                            material_names: chunk_materials(
                                scene.looks,
                                index,
                                scene.chunks.len(),
                            ),
                        },
                    ),
                },
            },
        },
    }
}

/// The geometry of the first `n` chunks; only of those in full detail, if the
/// level of detail is filtered.
pub open spec fn meshes(scene: SceneModel, lod_filter: bool, n: nat) -> Result<
    Seq<MeshModel>,
    Fault,
>
    decreases n,
{
    if n == 0 {
        Ok(Seq::empty())
    } else {
        match meshes(scene, lod_filter, (n - 1) as nat) {
            Err(f) => Err(f),
            Ok(before) => match number_or_zero(scene.chunks[n - 1], "lodMask"@) {
                Err(f) => Err(f),
                Ok(lod) => if lod_filter && lod != 1 {
                    Ok(before)
                } else {
                    match chunk_mesh(scene, (n - 1) as nat, lod) {
                        Err(f) => Err(f),
                        Ok(mesh) => Ok(before.push(mesh)),
                    }
                },
            },
        }
    }
}

/// The blob of a mesh: its header and its buffer.
pub open spec fn blob_of(root: value::Model) -> Result<(value::Model, Seq<u8>), Fault> {
    match field(root, "renderResourceBlob"@) {
        Err(f) => Err(f),
        Ok(resource) => match field(resource, "Data"@) {
            Err(f) => Err(f),
            Ok(blob) => match field(blob, "header"@) {
                Err(f) => Err(f),
                Ok(header) => match field(blob, "renderBuffer"@) {
                    Err(f) => Err(f),
                    Ok(buffer) => match text_in(buffer, "Bytes"@) {
                        Err(f) => Err(f),
                        Ok(encoded) => match text::base64_bytes(encoded) {
                            None => Err(Fault::Base64),
                            Some(bytes) => Ok((header, bytes)),
                        },
                    },
                },
            },
        },
    }
}

/// What the header of a mesh says of all chunks: scale, offset, indices.
pub open spec fn header_of(header: value::Model) -> Result<
    ((Number, Number, Number), (Number, Number, Number), nat),
    Fault,
> {
    match field(header, "quantizationScale"@) {
        Err(f) => Err(f),
        Ok(scale) => match vector(scale) {
            Err(f) => Err(f),
            Ok(scale) => match field(header, "quantizationOffset"@) {
                Err(f) => Err(f),
                Ok(offset) => match vector(offset) {
                    Err(f) => Err(f),
                    Ok(offset) => match count_in(header, "indexBufferOffset"@) {
                        Err(f) => Err(f),
                        Ok(indices) => Ok((scale, offset, indices)),
                    },
                },
            },
        },
    }
}

/// What the chunks of a mesh share, given its document.
pub open spec fn scene_of(document: value::Model) -> Result<SceneModel, Fault> {
    match field(document, "Data"@) {
        Err(f) => Err(f),
        Ok(data) => match field(data, "RootChunk"@) {
            Err(f) => Err(f),
            Ok(root) => match blob_of(root) {
                Err(f) => Err(f),
                Ok((header, buffer)) => match header_of(header) {
                    Err(f) => Err(f),
                    Ok((scale, offset, indices)) => match items_in(root, "appearances"@) {
                        Err(f) => Err(f),
                        Ok(list) => match appearances(list, list.len()) {
                            Err(f) => Err(f),
                            Ok(looks) => match items_in(header, "renderChunkInfos"@) {
                                Err(f) => Err(f),
                                Ok(chunks) => Ok(
                                    SceneModel { buffer, scale, offset, indices, looks, chunks },
                                ),
                            },
                        },
                    },
                },
            },
        },
    }
}

/// The geometry of a mesh, with the scale and the offset of its positions.
pub ghost struct GeometryModel {
    pub scale: (Number, Number, Number),
    pub offset: (Number, Number, Number),
    pub meshes: Seq<MeshModel>,
}

/// The geometry of a mesh, given its document.
pub open spec fn geometry(document: value::Model, lod_filter: bool) -> Result<
    GeometryModel,
    Fault,
> {
    match scene_of(document) {
        Err(f) => Err(f),
        Ok(scene) => match meshes(scene, lod_filter, scene.chunks.len()) {
            Err(f) => Err(f),
            Ok(list) => if list.len() == 0 {
                Err(Fault::Reason("mesh has no exportable render chunks"@))
            } else {
                Ok(GeometryModel { scale: scene.scale, offset: scene.offset, meshes: list })
            },
        },
    }
}

fn as_unsigned(value: &Value) -> (result: Option<u64>)
    ensures
        match unsigned(value@) {
            Some(n) => result matches Some(r) && r == n,
            None => result is None,
        },
{
    match value.as_integer() {
        Some(n) => if 0 <= n && n <= 0xffff_ffff_ffff_ffff {
            Some(n as u64)
        } else {
            None
        },
        None => None,
    }
}

fn member<'a>(value: &'a Value, name: &'static str) -> (result: Result<&'a Value, MeshError>)
    ensures
        match field(value@, name@) {
            Ok(found) => result matches Ok(r) && r@ == found,
            Err(f) => result matches Err(e) && e@ == f,
        },
{
    match value.get(name) {
        Some(found) => Ok(found),
        None => Err(MeshError::Missing { name }),
    }
}

fn array_member<'a>(value: &'a Value, name: &'static str) -> (result: Result<
    &'a Vec<Value>,
    MeshError,
>)
    ensures
        match items_in(value@, name@) {
            Ok(found) => result matches Ok(r) && value::models(r@) == found,
            Err(f) => result matches Err(e) && e@ == f,
        },
{
    match member(value, name) {
        Err(error) => Err(error),
        Ok(Value::Array(items)) => Ok(items),
        Ok(_) => Err(MeshError::Member { name, problem: " is not an array" }),
    }
}

fn string_member<'a>(value: &'a Value, name: &'static str) -> (result: Result<&'a str, MeshError>)
    ensures
        match text_in(value@, name@) {
            Ok(found) => result matches Ok(r) && r@ == found,
            Err(f) => result matches Err(e) && e@ == f,
        },
{
    match member(value, name) {
        Err(error) => Err(error),
        Ok(Value::Text(text)) => Ok(text.as_str()),
        Ok(_) => Err(MeshError::Member { name, problem: " is not a string" }),
    }
}

fn usize_member(value: &Value, name: &'static str) -> (result: Result<usize, MeshError>)
    ensures
        match count_in(value@, name@) {
            Ok(found) => result matches Ok(r) && r == found,
            Err(f) => result matches Err(e) && e@ == f,
        },
{
    match member(value, name) {
        Err(error) => Err(error),
        Ok(found) => match as_unsigned(found) {
            None => Err(MeshError::Member { name, problem: " is not an unsigned integer" }),
            Some(n) => if n > usize::MAX as u64 {
                Err(MeshError::Member { name, problem: " exceeds platform size" })
            } else {
                Ok(n as usize)
            },
        },
    }
}

/// Reads an unsigned member, zero where the member is missing.
pub fn u64_member_or_default(value: &Value, name: &'static str) -> (result: Result<u64, MeshError>)
    ensures
        match number_or_zero(value@, name@) {
            Ok(found) => result matches Ok(r) && r == found,
            Err(f) => result matches Err(e) && e@ == f,
        },
{
    match value.get(name) {
        None => Ok(0),
        Some(found) => match as_unsigned(found) {
            None => Err(MeshError::Member { name, problem: " is not an unsigned integer" }),
            Some(n) => Ok(n),
        },
    }
}

fn else_zero(value: &Value, name: &str) -> (result: u64)
    ensures
        result == number_else_zero(value@, name@),
{
    match value.get(name) {
        None => 0,
        Some(found) => match as_unsigned(found) {
            None => 0,
            Some(n) => n,
        },
    }
}

fn finite(number: Number) -> (result: bool)
    ensures
        result == is_finite(number),
{
    match (number.integer, number.single, number.double) {
        (Some(_), _, _) => true,
        (None, Some(bits), _) => (bits / 0x80_0000) % 0x100 != 0xff,
        (None, None, Some(bits)) => (bits / 0x10_0000_0000_0000) % 0x800 != 0x7ff,
        (None, None, None) => false,
    }
}

fn number_member(value: &Value, name: &'static str) -> (result: Result<Number, MeshError>)
    ensures
        match number_in(value@, name@) {
            Ok(found) => result matches Ok(r) && r == found,
            Err(f) => result matches Err(e) && e@ == f,
        },
{
    match member(value, name) {
        Err(error) => Err(error),
        Ok(Value::Number(number)) => if finite(*number) {
            Ok(*number)
        } else {
            Err(MeshError::Member { name, problem: " is not a number" })
        },
        Ok(_) => Err(MeshError::Member { name, problem: " is not a number" }),
    }
}

/// Reads the first three components of a vector.
pub fn quantization_vector(value: &Value) -> (result: Result<(Number, Number, Number), MeshError>)
    ensures
        match vector(value@) {
            Ok(found) => result matches Ok(r) && r == found,
            Err(f) => result matches Err(e) && e@ == f,
        },
{
    let x: Number = match number_member(value, "X") {
        Ok(x) => x,
        Err(error) => return Err(error),
    };
    let y: Number = match number_member(value, "Y") {
        Ok(y) => y,
        Err(error) => return Err(error),
    };
    match number_member(value, "Z") {
        Ok(z) => Ok((x, y, z)),
        Err(error) => Err(error),
    }
}

/// Numbers as they are.
pub open spec fn naturals(list: Seq<usize>) -> Seq<nat> {
    list.map_values(|n: usize| n as nat)
}

proof fn lemma_offsets_fail(items: Seq<value::Model>, k: nat, n: nat)
    requires
        k <= n,
        offsets(items, k) is Err,
    ensures
        offsets(items, n) == offsets(items, k),
    decreases n,
{
    if k < n {
        lemma_offsets_fail(items, k, (n - 1) as nat);
    }
}

#[verifier::loop_isolation(false)]
fn usize_array(value: &Value, name: &'static str) -> (result: Result<Vec<usize>, MeshError>)
    ensures
        match offsets_in(value@, name@) {
            Ok(found) => result matches Ok(r) && naturals(r@) == found,
            Err(f) => result matches Err(e) && e@ == f,
        },
{
    let items: &Vec<Value> = match member(value, name) {
        Err(error) => return Err(error),
        Ok(Value::Array(items)) => items,
        Ok(_) => return Err(MeshError::Reason { reason: "expected integer array" }),
    };
    let ghost all = value::models(items@);
    proof {
        value::lemma_models(items@);
    }
    let mut out: Vec<usize> = Vec::new();
    assert(naturals(out@) =~= Seq::empty());
    let mut i: usize = 0;
    while i < items.len()
        invariant
            i <= items@.len(),
            offsets(all, i as nat) == Ok::<Seq<nat>, Fault>(naturals(out@)),
        decreases items@.len() - i,
    {
        match as_unsigned(&items[i]) {
            Some(offset) if offset <= usize::MAX as u64 => {
                let ghost before = out@;
                out.push(offset as usize);
                assert(naturals(out@) =~= naturals(before).push(offset as nat));
            },
            _ => {
                proof {
                    lemma_offsets_fail(all, (i + 1) as nat, all.len());
                }
                return Err(MeshError::Reason { reason: "array contains an invalid offset" });
            },
        }
        i = i + 1;
    }
    Ok(out)
}

fn red_string(value: &Value) -> (result: Result<String, MeshError>)
    ensures
        match red_text(value@) {
            Ok(found) => result matches Ok(r) && r@ == found,
            Err(f) => result matches Err(e) && e@ == f,
        },
{
    let found: &Value = match value.get("$value") {
        Some(inner) => inner,
        None => match value.get("DepotPath") {
            Some(inner) => inner,
            None => value,
        },
    };
    match found.as_text() {
        Some(text) => Ok(copy_text(text)),
        None => Err(MeshError::Reason { reason: "invalid RED string" }),
    }
}

/// Texts as they are.
pub open spec fn texts(list: Seq<String>) -> Seq<Seq<char>> {
    list.map_values(|text: String| text@)
}

proof fn lemma_red_texts_fail(items: Seq<value::Model>, k: nat, n: nat)
    requires
        k <= n,
        red_texts(items, k) is Err,
    ensures
        red_texts(items, n) == red_texts(items, k),
    decreases n,
{
    if k < n {
        lemma_red_texts_fail(items, k, (n - 1) as nat);
    }
}

#[verifier::loop_isolation(false)]
fn decode_appearance(value: &Value) -> (result: Result<Vec<String>, MeshError>)
    ensures
        match appearance(value@) {
            Ok(found) => result matches Ok(r) && texts(r@) == found,
            Err(f) => result matches Err(e) && e@ == f,
        },
{
    let data: &Value = match member(value, "Data") {
        Ok(data) => data,
        Err(error) => return Err(error),
    };
    let items: &Vec<Value> = match array_member(data, "chunkMaterials") {
        Ok(items) => items,
        Err(error) => return Err(error),
    };
    let ghost all = value::models(items@);
    proof {
        value::lemma_models(items@);
    }
    let mut out: Vec<String> = Vec::new();
    assert(texts(out@) =~= Seq::empty());
    let mut i: usize = 0;
    while i < items.len()
        invariant
            i <= items@.len(),
            red_texts(all, i as nat) == Ok::<Seq<Seq<char>>, Fault>(texts(out@)),
        decreases items@.len() - i,
    {
        match red_string(&items[i]) {
            Err(error) => {
                proof {
                    lemma_red_texts_fail(all, (i + 1) as nat, all.len());
                }
                return Err(error);
            },
            Ok(text) => {
                let ghost before = out@;
                let ghost content = text@;
                out.push(text);
                assert(texts(out@) =~= texts(before).push(content));
            },
        }
        i = i + 1;
    }
    Ok(out)
}

/// Lists of texts as they are.
pub open spec fn text_lists(lists: Seq<Vec<String>>) -> Seq<Seq<Seq<char>>> {
    lists.map_values(|list: Vec<String>| texts(list@))
}

proof fn lemma_appearances_fail(items: Seq<value::Model>, k: nat, n: nat)
    requires
        k <= n,
        appearances(items, k) is Err,
    ensures
        appearances(items, n) == appearances(items, k),
    decreases n,
{
    if k < n {
        lemma_appearances_fail(items, k, (n - 1) as nat);
    }
}

#[verifier::loop_isolation(false)]
fn decode_appearances(items: &Vec<Value>) -> (result: Result<Vec<Vec<String>>, MeshError>)
    ensures
        match appearances(value::models(items@), items@.len()) {
            Ok(found) => result matches Ok(r) && text_lists(r@) == found,
            Err(f) => result matches Err(e) && e@ == f,
        },
{
    let ghost all = value::models(items@);
    proof {
        value::lemma_models(items@);
    }
    let mut out: Vec<Vec<String>> = Vec::new();
    assert(text_lists(out@) =~= Seq::empty());
    let mut i: usize = 0;
    while i < items.len()
        invariant
            i <= items@.len(),
            appearances(all, i as nat) == Ok::<Seq<Seq<Seq<char>>>, Fault>(text_lists(out@)),
        decreases items@.len() - i,
    {
        match decode_appearance(&items[i]) {
            Err(error) => {
                proof {
                    lemma_appearances_fail(all, (i + 1) as nat, all.len());
                }
                return Err(error);
            },
            Ok(names) => {
                let ghost before = out@;
                let ghost content = texts(names@);
                out.push(names);
                assert(text_lists(out@) =~= text_lists(before).push(content));
            },
        }
        i = i + 1;
    }
    Ok(out)
}

/// Finds the material of a chunk. An appearance that names too few materials
/// is repeated.
pub fn material_for_chunk(materials: &Vec<String>, chunk_index: usize, chunk_count: usize) -> (result:
    String)
    requires
        materials@.len() == 0 || chunk_index < materials@.len() || chunk_count > 0,
    ensures
        result@ == chunk_material(texts(materials@), chunk_index as nat, chunk_count as nat),
{
    if materials.len() == 0 {
        return copy_text("default");
    }
    assert(forall|k: int| 0 <= k < materials@.len() ==> #[trigger] texts(materials@)[k] == materials@[k]@);
    if chunk_index < materials.len() {
        return copy_text(materials[chunk_index].as_str());
    }
    let period: usize = if materials.len() <= chunk_count {
        materials.len()
    } else {
        chunk_count
    };
    copy_text(materials[(chunk_index - materials.len()) % period].as_str())
}

/// Finds where the stream with a usage starts, if there is one.
pub fn offset_for_usage(
    elements: &Vec<Value>,
    byte_offsets: &Vec<usize>,
    usage: &str,
    usage_index: u64,
) -> (result: Result<Option<usize>, MeshError>)
    ensures
        match usage_offset(
            value::models(elements@),
            naturals(byte_offsets@),
            usage@,
            usage_index as nat,
        ) {
            Ok(None) => result matches Ok(None),
            Ok(Some(found)) => result matches Ok(Some(r)) && r == found,
            Err(f) => result matches Err(e) && e@ == f,
        },
{
    let ghost all = value::models(elements@);
    proof {
        value::lemma_models(elements@);
    }
    let mut i: usize = 0;
    while i < elements.len()
        invariant
            i <= elements@.len(),
            all == value::models(elements@),
            all.len() == elements@.len(),
            forall|k: int| 0 <= k < all.len() ==> #[trigger] all[k] == value::model(elements@[k]),
            usage_element(all, usage@, usage_index as nat, 0) == usage_element(
                all,
                usage@,
                usage_index as nat,
                i as nat,
            ),
        decreases elements@.len() - i,
    {
        let element: &Value = &elements[i];
        assert(all[i as int] == element@);
        let named: bool = match element.get("usage") {
            None => false,
            Some(found) => match found.as_text() {
                None => false,
                Some(text) => same_text(text, usage),
            },
        };
        if named && else_zero(element, "usageIndex") == usage_index {
            let stream: u64 = else_zero(element, "streamIndex");
            if stream > usize::MAX as u64 {
                return Err(
                    MeshError::Reason { reason: "vertex stream index exceeds platform size" },
                );
            }
            if (stream as usize) < byte_offsets.len() {
                assert(naturals(byte_offsets@)[stream as int] == byte_offsets@[stream as int]);
                return Ok(Some(byte_offsets[stream as usize]));
            }
            return Err(MeshError::StreamIndex { index: stream as usize });
        }
        i = i + 1;
    }
    Ok(None)
}

/// Finds where an element of a stream starts.
pub fn checked_element_offset(
    base: usize,
    stride: usize,
    index: usize,
    width: usize,
    buffer_len: usize,
) -> (result: Result<usize, MeshError>)
    ensures
        match element_start(
            base as nat,
            stride as nat,
            index as nat,
            width as nat,
            buffer_len as nat,
        ) {
            Ok(start) => result matches Ok(r) && r == start,
            Err(f) => result matches Err(e) && e@ == f,
        },
{
    assert(index * stride >= 0) by (nonlinear_arith)
        requires
            index >= 0,
            stride >= 0,
    ;
    let start: usize = match index.checked_mul(stride) {
        None => return Err(MeshError::Reason { reason: "mesh buffer offset overflow" }),
        Some(distance) => {
            if distance > usize::MAX - base {
                return Err(MeshError::Reason { reason: "mesh buffer offset overflow" });
            }
            base + distance
        },
    };
    if width > usize::MAX - start {
        return Err(MeshError::Reason { reason: "mesh buffer range overflow" });
    }
    if start + width > buffer_len {
        return Err(MeshError::Range { start, end: start + width, length: buffer_len });
    }
    Ok(start)
}

proof fn lemma_starts_fail(base: nat, stride: nat, width: nat, length: nat, k: nat, n: nat)
    requires
        k <= n,
        element_starts(base, stride, width, length, k) is Err,
    ensures
        element_starts(base, stride, width, length, n) == element_starts(
            base,
            stride,
            width,
            length,
            k,
        ),
    decreases n,
{
    if k < n {
        lemma_starts_fail(base, stride, width, length, k, (n - 1) as nat);
    }
}

proof fn lemma_starts(base: nat, stride: nat, width: nat, length: nat, n: nat)
    ensures
        element_starts(base, stride, width, length, n) matches Ok(starts) ==> starts.len() == n && (
        forall|i: int| 0 <= i < n ==> #[trigger] starts[i] + width <= length),
    decreases n,
{
    if n > 0 {
        lemma_starts(base, stride, width, length, (n - 1) as nat);
    }
}

#[verifier::loop_isolation(false)]
fn starts_of(base: usize, stride: usize, width: usize, length: usize, count: usize) -> (result:
    Result<Vec<usize>, MeshError>)
    ensures
        match element_starts(
            base as nat,
            stride as nat,
            width as nat,
            length as nat,
            count as nat,
        ) {
            Ok(starts) => result matches Ok(r) && naturals(r@) == starts && r@.len() == count && (
            forall|i: int| 0 <= i < count ==> #[trigger] r@[i] + width <= length),
            Err(f) => result matches Err(e) && e@ == f,
        },
{
    let mut out: Vec<usize> = Vec::new();
    assert(naturals(out@) =~= Seq::empty());
    let mut i: usize = 0;
    while i < count
        invariant
            i <= count,
            element_starts(
                base as nat,
                stride as nat,
                width as nat,
                length as nat,
                i as nat,
            ) == Ok::<Seq<nat>, Fault>(naturals(out@)),
        decreases count - i,
    {
        match checked_element_offset(base, stride, i, width, length) {
            Err(error) => {
                proof {
                    lemma_starts_fail(
                        base as nat,
                        stride as nat,
                        width as nat,
                        length as nat,
                        (i + 1) as nat,
                        count as nat,
                    );
                }
                return Err(error);
            },
            Ok(start) => {
                let ghost before = out@;
                out.push(start);
                assert(naturals(out@) =~= naturals(before).push(start as nat));
            },
        }
        i = i + 1;
    }
    proof {
        lemma_starts(base as nat, stride as nat, width as nat, length as nat, count as nat);
        assert(out@.len() == naturals(out@).len());
        assert forall|k: int| 0 <= k < count implies #[trigger] out@[k] + width <= length by {
            assert(naturals(out@)[k] == out@[k]);
        }
    }
    Ok(out)
}

fn word_at(bytes: &[u8], at: usize) -> (result: u16)
    requires
        at + 2 <= bytes@.len(),
    ensures
        result == word(bytes@, at as nat),
{
    match read_u16_le(bytes, at) {
        Some(value) => value,
        None => 0,
    }
}

fn double_word_at(bytes: &[u8], at: usize) -> (result: u32)
    requires
        at + 4 <= bytes@.len(),
    ensures
        result == double_word(bytes@, at as nat),
{
    match read_u32_le(bytes, at) {
        Some(value) => value,
        None => 0,
    }
}

fn read_positions(bytes: &[u8], starts: &Vec<usize>) -> (result: Vec<(i16, i16, i16)>)
    requires
        forall|i: int| 0 <= i < starts@.len() ==> #[trigger] starts@[i] + 6 <= bytes@.len(),
    ensures
        result@ == positions_at(bytes@, naturals(starts@)),
{
    let size: usize = bytes.len();
    let mut out: Vec<(i16, i16, i16)> = Vec::new();
    let mut i: usize = 0;
    while i < starts.len()
        invariant
            size == bytes@.len(),
            i <= starts@.len(),
            forall|i: int| 0 <= i < starts@.len() ==> #[trigger] starts@[i] + 6 <= bytes@.len(),
            out@.len() == i,
            forall|k: int|
                0 <= k < i ==> #[trigger] out@[k] == positions_at(bytes@, naturals(starts@))[k],
        decreases starts@.len() - i,
    {
        let at: usize = starts[i];
        let x: i16 = to_signed16(word_at(bytes, at));
        let y: i16 = to_signed16(word_at(bytes, at + 2));
        let z: i16 = to_signed16(word_at(bytes, at + 4));
        assert(naturals(starts@)[i as int] == at as nat);
        out.push((x, y, z));
        i = i + 1;
    }
    assert(out@ =~= positions_at(bytes@, naturals(starts@)));
    out
}

fn read_packed(bytes: &[u8], starts: &Vec<usize>) -> (result: Vec<u32>)
    requires
        forall|i: int| 0 <= i < starts@.len() ==> #[trigger] starts@[i] + 4 <= bytes@.len(),
    ensures
        result@ == packed_at(bytes@, naturals(starts@)),
{
    let mut out: Vec<u32> = Vec::new();
    let mut i: usize = 0;
    while i < starts.len()
        invariant
            i <= starts@.len(),
            forall|i: int| 0 <= i < starts@.len() ==> #[trigger] starts@[i] + 4 <= bytes@.len(),
            out@.len() == i,
            forall|k: int|
                0 <= k < i ==> #[trigger] out@[k] == packed_at(bytes@, naturals(starts@))[k],
        decreases starts@.len() - i,
    {
        assert(naturals(starts@)[i as int] == starts@[i as int] as nat);
        out.push(double_word_at(bytes, starts[i]));
        i = i + 1;
    }
    assert(out@ =~= packed_at(bytes@, naturals(starts@)));
    out
}

fn read_colors(bytes: &[u8], starts: &Vec<usize>) -> (result: Vec<(u8, u8, u8, u8)>)
    requires
        forall|i: int| 0 <= i < starts@.len() ==> #[trigger] starts@[i] + 4 <= bytes@.len(),
    ensures
        result@ == colors_at(bytes@, naturals(starts@)),
{
    let mut out: Vec<(u8, u8, u8, u8)> = Vec::new();
    let mut i: usize = 0;
    while i < starts.len()
        invariant
            i <= starts@.len(),
            forall|i: int| 0 <= i < starts@.len() ==> #[trigger] starts@[i] + 4 <= bytes@.len(),
            out@.len() == i,
            forall|k: int|
                0 <= k < i ==> #[trigger] out@[k] == colors_at(bytes@, naturals(starts@))[k],
        decreases starts@.len() - i,
    {
        let at: usize = starts[i];
        assert(naturals(starts@)[i as int] == at as nat);
        out.push((bytes[at], bytes[at + 1], bytes[at + 2], bytes[at + 3]));
        i = i + 1;
    }
    assert(out@ =~= colors_at(bytes@, naturals(starts@)));
    out
}

fn read_coordinates(bytes: &[u8], starts: &Vec<usize>) -> (result: Vec<(u16, u16)>)
    requires
        forall|i: int| 0 <= i < starts@.len() ==> #[trigger] starts@[i] + 4 <= bytes@.len(),
    ensures
        result@ == coordinates_at(bytes@, naturals(starts@)),
{
    let size: usize = bytes.len();
    let mut out: Vec<(u16, u16)> = Vec::new();
    let mut i: usize = 0;
    while i < starts.len()
        invariant
            size == bytes@.len(),
            i <= starts@.len(),
            forall|i: int| 0 <= i < starts@.len() ==> #[trigger] starts@[i] + 4 <= bytes@.len(),
            out@.len() == i,
            forall|k: int|
                0 <= k < i ==> #[trigger] out@[k] == coordinates_at(bytes@, naturals(starts@))[k],
        decreases starts@.len() - i,
    {
        let at: usize = starts[i];
        assert(naturals(starts@)[i as int] == at as nat);
        out.push((word_at(bytes, at), word_at(bytes, at + 2)));
        i = i + 1;
    }
    assert(out@ =~= coordinates_at(bytes@, naturals(starts@)));
    out
}

proof fn lemma_indices_fail(bytes: Seq<u8>, base: nat, vertices: nat, k: nat, n: nat)
    requires
        k <= n,
        indices_at(bytes, base, vertices, k) is Err,
    ensures
        indices_at(bytes, base, vertices, n) == indices_at(bytes, base, vertices, k),
    decreases n,
{
    if k < n {
        lemma_indices_fail(bytes, base, vertices, k, (n - 1) as nat);
    }
}

/// Reads vertex indices, and changes over the first two of each triangle.
#[verifier::loop_isolation(false)]
pub fn decode_indices(bytes: &[u8], offset: usize, count: usize, vertex_count: usize) -> (result:
    Result<Vec<u16>, MeshError>)
    ensures
        match indices_at(bytes@, offset as nat, vertex_count as nat, count as nat) {
            Ok(indices) => result matches Ok(r) && r@ == turned(indices),
            Err(f) => result matches Err(e) && e@ == f,
        },
{
    let mut out: Vec<u16> = Vec::new();
    let mut i: usize = 0;
    while i < count
        invariant
            i <= count,
            indices_at(bytes@, offset as nat, vertex_count as nat, i as nat) == Ok::<
                Seq<u16>,
                Fault,
            >(out@),
        decreases count - i,
    {
        let ghost next = (i + 1) as nat;
        match checked_element_offset(offset, 2, i, 2, bytes.len()) {
            Err(error) => {
                proof {
                    lemma_indices_fail(
                        bytes@,
                        offset as nat,
                        vertex_count as nat,
                        next,
                        count as nat,
                    );
                }
                return Err(error);
            },
            Ok(start) => {
                let vertex: u16 = word_at(bytes, start);
                if vertex as usize >= vertex_count {
                    proof {
                        lemma_indices_fail(
                            bytes@,
                            offset as nat,
                            vertex_count as nat,
                            next,
                            count as nat,
                        );
                    }
                    return Err(MeshError::VertexIndex { vertex, count: vertex_count });
                }
                out.push(vertex);
            },
        }
        i = i + 1;
    }
    let ghost stored = out@;
    let size: usize = out.len();
    let whole: usize = size - size % 3;
    let mut at: usize = 0;
    while at < whole
        invariant
            at <= whole,
            at % 3 == 0,
            out@.len() == size,
            forall|k: int| 0 <= k < at ==> #[trigger] out@[k] == turned(stored)[k],
            forall|k: int| at <= k < size ==> #[trigger] out@[k] == stored[k],
        decreases whole - at,
    {
        let first: u16 = out[at];
        let second: u16 = out[at + 1];
        out.set(at, second);
        out.set(at + 1, first);
        at = at + 3;
    }
    assert(out@ =~= turned(stored));
    Ok(out)
}

/// How the vertices of a chunk are laid out.
#[derive(Clone, Copy)]
struct Layout {
    vertices: usize,
    indices: usize,
    position: usize,
    stride: usize,
    coordinates: Option<usize>,
    coordinates_1: Option<usize>,
    normal: Option<usize>,
    tangent: Option<usize>,
    color: Option<usize>,
}

/// A number, if there is one.
pub open spec fn optional_natural(n: Option<usize>) -> Option<nat> {
    match n {
        Some(n) => Some(n as nat),
        None => None,
    }
}

impl View for Layout {
    type V = LayoutModel;

    closed spec fn view(&self) -> LayoutModel {
        LayoutModel {
            vertices: self.vertices as nat,
            indices: self.indices as nat,
            position: self.position as nat,
            stride: self.stride as nat,
            coordinates: optional_natural(self.coordinates),
            coordinates_1: optional_natural(self.coordinates_1),
            normal: optional_natural(self.normal),
            tangent: optional_natural(self.tangent),
            color: optional_natural(self.color),
        }
    }
}

fn read_layout_parts<'a>(chunk: &'a Value) -> (result: Result<
    (usize, usize, Vec<usize>, Vec<usize>, &'a Vec<Value>),
    MeshError,
>)
    ensures
        match layout_parts(chunk@) {
            Ok((vertices, indices, starts, strides, elements)) => result matches Ok(r) && r.0
                == vertices && r.1 == indices && naturals(r.2@) == starts && naturals(r.3@)
                == strides && value::models(r.4@) == elements,
            Err(f) => result matches Err(e) && e@ == f,
        },
{
    let vertices: usize = match usize_member(chunk, "numVertices") {
        Ok(vertices) => vertices,
        Err(error) => return Err(error),
    };
    let indices: usize = match usize_member(chunk, "numIndices") {
        Ok(indices) => indices,
        Err(error) => return Err(error),
    };
    let content: &Value = match member(chunk, "chunkVertices") {
        Ok(content) => content,
        Err(error) => return Err(error),
    };
    let layout: &Value = match member(content, "vertexLayout") {
        Ok(layout) => layout,
        Err(error) => return Err(error),
    };
    let starts: Vec<usize> = match usize_array(content, "byteOffsets") {
        Ok(starts) => starts,
        Err(error) => return Err(error),
    };
    let strides: Vec<usize> = match usize_array(layout, "slotStrides") {
        Ok(strides) => strides,
        Err(error) => return Err(error),
    };
    match array_member(layout, "elements") {
        Ok(elements) => Ok((vertices, indices, starts, strides, elements)),
        Err(error) => Err(error),
    }
}

fn read_layout(chunk: &Value) -> (result: Result<Layout, MeshError>)
    ensures
        match layout_of(chunk@) {
            Ok(layout) => result matches Ok(r) && r@ == layout,
            Err(f) => result matches Err(e) && e@ == f,
        },
{
    let (vertices, indices, starts, strides, elements): (
        usize,
        usize,
        Vec<usize>,
        Vec<usize>,
        &Vec<Value>,
    ) = match read_layout_parts(chunk) {
        Ok(parts) => parts,
        Err(error) => return Err(error),
    };
    let position: usize = match offset_for_usage(elements, &starts, "PS_Position", 0) {
        Ok(Some(position)) => position,
        Ok(None) => return Err(
            MeshError::Reason { reason: "vertex layout has no position stream" },
        ),
        Err(error) => return Err(error),
    };
    if strides.len() == 0 {
        return Err(MeshError::Reason { reason: "vertex layout has no position stride" });
    }
    assert(naturals(strides@)[0] == strides@[0]);
    let coordinates: Option<usize> = match offset_for_usage(elements, &starts, "PS_TexCoord", 0) {
        Ok(offset) => offset,
        Err(error) => return Err(error),
    };
    let coordinates_1: Option<usize> = match offset_for_usage(elements, &starts, "PS_TexCoord", 1) {
        Ok(offset) => offset,
        Err(error) => return Err(error),
    };
    let normal: Option<usize> = match offset_for_usage(elements, &starts, "PS_Normal", 0) {
        Ok(offset) => offset,
        Err(error) => return Err(error),
    };
    let tangent: Option<usize> = match offset_for_usage(elements, &starts, "PS_Tangent", 0) {
        Ok(offset) => offset,
        Err(error) => return Err(error),
    };
    match offset_for_usage(elements, &starts, "PS_Color", 0) {
        Ok(color) => Ok(
            Layout {
                vertices,
                indices,
                position,
                stride: strides[0],
                coordinates,
                coordinates_1,
                normal,
                tangent,
                color,
            },
        ),
        Err(error) => Err(error),
    }
}

fn stream(offset: Option<usize>, shift: usize, stride: usize, length: usize, count: usize) -> (result:
    Result<Vec<usize>, MeshError>)
    ensures
        match stream_starts(
            optional_natural(offset),
            shift as nat,
            stride as nat,
            length as nat,
            count as nat,
        ) {
            Ok(starts) => result matches Ok(r) && naturals(r@) == starts && (forall|i: int|
                0 <= i < r@.len() ==> #[trigger] r@[i] + 4 <= length),
            Err(f) => result matches Err(e) && e@ == f,
        },
{
    match offset {
        None => {
            let none: Vec<usize> = Vec::new();
            assert(naturals(none@) =~= Seq::empty());
            Ok(none)
        },
        Some(offset) => {
            if shift > usize::MAX - offset {
                return Err(MeshError::Reason { reason: "mesh buffer offset overflow" });
            }
            starts_of(offset + shift, stride, 4, length, count)
        },
    }
}

/// The geometry of a chunk. Positions are signed 16-bit integers, normals and
/// tangents are packed into 32 bits, and texture coordinates are the bits of
/// half floats.
#[derive(Debug, PartialEq, Eq)]
pub struct RawMesh {
    pub name: String,
    pub positions: Vec<(i16, i16, i16)>,
    pub normals: Vec<u32>,
    pub tangents: Vec<u32>,
    pub colors: Vec<(u8, u8, u8, u8)>,
    pub tex_coords: Vec<(u16, u16)>,
    pub tex_coords_1: Vec<(u16, u16)>,
    pub indices: Vec<u16>,
    pub material_names: Vec<String>,
}

impl View for RawMesh {
    type V = MeshModel;

    open spec fn view(&self) -> MeshModel {
        MeshModel {
            name: self.name@,
            positions: self.positions@,
            normals: self.normals@,
            tangents: self.tangents@,
            colors: self.colors@,
            tex_coords: self.tex_coords@,
            tex_coords_1: self.tex_coords_1@,
            indices: self.indices@,
            material_names: texts(self.material_names@),
        }
    }
}

fn new_chunk_name(index: usize, lod: u64) -> (result: String)
    ensures
        result@ == chunk_name(index as nat, lod as nat),
{
    let mut name: String = String::new();
    push_text(&mut name, "submesh_");
    if index < 10 {
        push_text(&mut name, "0");
    }
    push_text(&mut name, decimal_text(index as u64).as_str());
    push_text(&mut name, "_LOD_");
    push_text(&mut name, decimal_text(lod).as_str());
    assert(name@ =~= chunk_name(index as nat, lod as nat));
    name
}

fn find_indices_start(chunk: &Value, base: usize) -> (result: Result<usize, MeshError>)
    ensures
        match indices_start(chunk@, base as nat) {
            Ok(start) => result matches Ok(r) && r == start,
            Err(f) => result matches Err(e) && e@ == f,
        },
{
    let content: &Value = match member(chunk, "chunkIndices") {
        Ok(content) => content,
        Err(error) => return Err(error),
    };
    let relative: u64 = else_zero(content, "teOffset");
    if relative > usize::MAX as u64 {
        return Err(MeshError::Reason { reason: "index buffer offset exceeds platform size" });
    }
    if relative as usize > usize::MAX - base {
        return Err(MeshError::Reason { reason: "index buffer offset overflow" });
    }
    Ok(base + relative as usize)
}

fn list_chunk_materials(looks: &Vec<Vec<String>>, index: usize, count: usize) -> (result: Vec<
    String,
>)
    requires
        count > 0,
    ensures
        texts(result@) == chunk_materials(text_lists(looks@), index as nat, count as nat),
{
    let ghost wanted = chunk_materials(text_lists(looks@), index as nat, count as nat);
    let mut out: Vec<String> = Vec::new();
    let mut i: usize = 0;
    while i < looks.len()
        invariant
            count > 0,
            i <= looks@.len(),
            out@.len() == i,
            wanted == chunk_materials(text_lists(looks@), index as nat, count as nat),
            forall|k: int| 0 <= k < i ==> (#[trigger] out@[k])@ == wanted[k],
        decreases looks@.len() - i,
    {
        assert(text_lists(looks@)[i as int] == texts(looks@[i as int]@));
        out.push(material_for_chunk(&looks[i], index, count));
        i = i + 1;
    }
    assert(texts(out@) =~= wanted);
    out
}

#[derive(Debug)]
struct Scene<'a> {
    buffer: Vec<u8>,
    scale: (Number, Number, Number),
    offset: (Number, Number, Number),
    indices: usize,
    looks: Vec<Vec<String>>,
    chunks: &'a Vec<Value>,
}

impl<'a> View for Scene<'a> {
    type V = SceneModel;

    closed spec fn view(&self) -> SceneModel {
        SceneModel {
            buffer: self.buffer@,
            scale: self.scale,
            offset: self.offset,
            indices: self.indices as nat,
            looks: text_lists(self.looks@),
            chunks: value::models(self.chunks@),
        }
    }
}

/// The starts of the elements of all streams.
struct Streams {
    positions: Vec<usize>,
    normals: Vec<usize>,
    tangents: Vec<usize>,
    colors: Vec<usize>,
    coordinates: Vec<usize>,
    coordinates_1: Vec<usize>,
}

impl View for Streams {
    type V = StreamsModel;

    closed spec fn view(&self) -> StreamsModel {
        StreamsModel {
            positions: naturals(self.positions@),
            normals: naturals(self.normals@),
            tangents: naturals(self.tangents@),
            colors: naturals(self.colors@),
            coordinates: naturals(self.coordinates@),
            coordinates_1: naturals(self.coordinates_1@),
        }
    }
}

spec fn within(starts: Seq<usize>, width: nat, length: nat) -> bool {
    forall|i: int| 0 <= i < starts.len() ==> #[trigger] starts[i] + width <= length
}

fn find_streams(layout: Layout, length: usize) -> (result: Result<Streams, MeshError>)
    ensures
        match streams_of(layout@, length as nat) {
            Ok(streams) => result matches Ok(r) && r@ == streams && within(
                r.positions@,
                6,
                length as nat,
            ) && within(r.normals@, 4, length as nat) && within(r.tangents@, 4, length as nat)
                && within(r.colors@, 4, length as nat) && within(
                r.coordinates@,
                4,
                length as nat,
            ) && within(r.coordinates_1@, 4, length as nat),
            Err(f) => result matches Err(e) && e@ == f,
        },
{
    let count: usize = layout.vertices;
    let normal_stride: usize = if layout.tangent.is_some() {
        8
    } else {
        4
    };
    let tangent_shift: usize = if layout.normal.is_some() {
        4
    } else {
        0
    };
    let color_stride: usize = if layout.coordinates_1.is_some() {
        8
    } else {
        4
    };
    let coordinates_shift: usize = if layout.color.is_some() {
        4
    } else {
        0
    };
    let positions: Vec<usize> = match starts_of(layout.position, layout.stride, 6, length, count) {
        Ok(starts) => starts,
        Err(error) => return Err(error),
    };
    let normals: Vec<usize> = match stream(layout.normal, 0, normal_stride, length, count) {
        Ok(starts) => starts,
        Err(error) => return Err(error),
    };
    let tangents: Vec<usize> = match stream(
        layout.tangent,
        tangent_shift,
        normal_stride,
        length,
        count,
    ) {
        Ok(starts) => starts,
        Err(error) => return Err(error),
    };
    let colors: Vec<usize> = match stream(layout.color, 0, color_stride, length, count) {
        Ok(starts) => starts,
        Err(error) => return Err(error),
    };
    let coordinates: Vec<usize> = match stream(layout.coordinates, 0, 4, length, count) {
        Ok(starts) => starts,
        Err(error) => return Err(error),
    };
    match stream(layout.coordinates_1, coordinates_shift, color_stride, length, count) {
        Ok(coordinates_1) => Ok(
            Streams { positions, normals, tangents, colors, coordinates, coordinates_1 },
        ),
        Err(error) => Err(error),
    }
}

fn decode_chunk(scene: &Scene<'_>, index: usize, lod: u64) -> (result: Result<RawMesh, MeshError>)
    requires
        index < scene.chunks@.len(),
    ensures
        match chunk_mesh(scene@, index as nat, lod as nat) {
            Ok(mesh) => result matches Ok(r) && r@ == mesh,
            Err(f) => result matches Err(e) && e@ == f,
        },
{
    let chunk: &Value = &scene.chunks[index];
    proof {
        value::lemma_models(scene.chunks@);
        assert(scene@.chunks[index as int] == chunk@);
    }
    let layout: Layout = match read_layout(chunk) {
        Ok(layout) => layout,
        Err(error) => return Err(error),
    };
    let bytes: &[u8] = scene.buffer.as_slice();
    let streams: Streams = match find_streams(layout, bytes.len()) {
        Ok(streams) => streams,
        Err(error) => return Err(error),
    };
    let base: usize = match find_indices_start(chunk, scene.indices) {
        Ok(base) => base,
        Err(error) => return Err(error),
    };
    let indices: Vec<u16> = match decode_indices(bytes, base, layout.indices, layout.vertices) {
        Ok(indices) => indices,
        Err(error) => return Err(error),
    };
    Ok(
        RawMesh {
            name: new_chunk_name(index, lod),
            positions: read_positions(bytes, &streams.positions),
            normals: read_packed(bytes, &streams.normals),
            tangents: read_packed(bytes, &streams.tangents),
            colors: read_colors(bytes, &streams.colors),
            tex_coords: read_coordinates(bytes, &streams.coordinates),
            tex_coords_1: read_coordinates(bytes, &streams.coordinates_1),
            indices,
            material_names: list_chunk_materials(&scene.looks, index, scene.chunks.len()),
        },
    )
}

fn read_blob<'a>(root: &'a Value) -> (result: Result<(&'a Value, Vec<u8>), MeshError>)
    ensures
        match blob_of(root@) {
            Ok((header, bytes)) => result matches Ok(r) && r.0@ == header && r.1@ == bytes,
            Err(f) => result matches Err(e) && e@ == f,
        },
{
    let resource: &Value = match member(root, "renderResourceBlob") {
        Ok(resource) => resource,
        Err(error) => return Err(error),
    };
    let blob: &Value = match member(resource, "Data") {
        Ok(blob) => blob,
        Err(error) => return Err(error),
    };
    let header: &Value = match member(blob, "header") {
        Ok(header) => header,
        Err(error) => return Err(error),
    };
    let buffer: &Value = match member(blob, "renderBuffer") {
        Ok(buffer) => buffer,
        Err(error) => return Err(error),
    };
    let encoded: &str = match string_member(buffer, "Bytes") {
        Ok(encoded) => encoded,
        Err(error) => return Err(error),
    };
    match decode_base64(encoded) {
        Some(bytes) => Ok((header, bytes)),
        None => Err(MeshError::Base64),
    }
}

fn read_header(header: &Value) -> (result: Result<
    ((Number, Number, Number), (Number, Number, Number), usize),
    MeshError,
>)
    ensures
        match header_of(header@) {
            Ok((scale, offset, indices)) => result matches Ok(r) && r.0 == scale && r.1 == offset
                && r.2 == indices,
            Err(f) => result matches Err(e) && e@ == f,
        },
{
    let scale: (Number, Number, Number) = match member(header, "quantizationScale") {
        Ok(scale) => match quantization_vector(scale) {
            Ok(scale) => scale,
            Err(error) => return Err(error),
        },
        Err(error) => return Err(error),
    };
    let offset: (Number, Number, Number) = match member(header, "quantizationOffset") {
        Ok(offset) => match quantization_vector(offset) {
            Ok(offset) => offset,
            Err(error) => return Err(error),
        },
        Err(error) => return Err(error),
    };
    match usize_member(header, "indexBufferOffset") {
        Ok(indices) => Ok((scale, offset, indices)),
        Err(error) => Err(error),
    }
}

fn read_scene<'a>(document: &'a Value) -> (result: Result<Scene<'a>, MeshError>)
    ensures
        match scene_of(document@) {
            Ok(scene) => result matches Ok(r) && r@ == scene,
            Err(f) => result matches Err(e) && e@ == f,
        },
{
    let data: &Value = match member(document, "Data") {
        Ok(data) => data,
        Err(error) => return Err(error),
    };
    let root: &Value = match member(data, "RootChunk") {
        Ok(root) => root,
        Err(error) => return Err(error),
    };
    let (header, buffer): (&Value, Vec<u8>) = match read_blob(root) {
        Ok(blob) => blob,
        Err(error) => return Err(error),
    };
    let (scale, offset, indices): ((Number, Number, Number), (Number, Number, Number), usize) =
        match read_header(header) {
        Ok(parts) => parts,
        Err(error) => return Err(error),
    };
    let list: &Vec<Value> = match array_member(root, "appearances") {
        Ok(list) => list,
        Err(error) => return Err(error),
    };
    proof {
        value::lemma_models(list@);
    }
    let looks: Vec<Vec<String>> = match decode_appearances(list) {
        Ok(looks) => looks,
        Err(error) => return Err(error),
    };
    match array_member(header, "renderChunkInfos") {
        Ok(chunks) => Ok(Scene { buffer, scale, offset, indices, looks, chunks }),
        Err(error) => Err(error),
    }
}

/// The geometry of a mesh, with the scale and the offset of its positions.
#[derive(Debug, PartialEq, Eq)]
pub struct Geometry {
    pub scale: (Number, Number, Number),
    pub offset: (Number, Number, Number),
    pub meshes: Vec<RawMesh>,
}

/// Meshes as they are.
pub open spec fn mesh_models(list: Seq<RawMesh>) -> Seq<MeshModel> {
    list.map_values(|mesh: RawMesh| mesh@)
}

impl View for Geometry {
    type V = GeometryModel;

    open spec fn view(&self) -> GeometryModel {
        GeometryModel {
            scale: self.scale,
            offset: self.offset,
            meshes: mesh_models(self.meshes@),
        }
    }
}

proof fn lemma_meshes_fail(scene: SceneModel, lod_filter: bool, k: nat, n: nat)
    requires
        k <= n,
        meshes(scene, lod_filter, k) is Err,
    ensures
        meshes(scene, lod_filter, n) == meshes(scene, lod_filter, k),
    decreases n,
{
    if k < n {
        lemma_meshes_fail(scene, lod_filter, k, (n - 1) as nat);
    }
}

/// Decodes the geometry of a mesh out of its document; only the chunks in full
/// detail, if the level of detail is filtered.
#[verifier::loop_isolation(false)]
pub fn decode_meshes(document: &Value, lod_filter: bool) -> (result: Result<Geometry, MeshError>)
    ensures
        match geometry(document@, lod_filter) {
            Ok(found) => result matches Ok(r) && r@ == found,
            Err(f) => result matches Err(e) && e@ == f,
        },
{
    let scene: Scene<'_> = match read_scene(document) {
        Ok(scene) => scene,
        Err(error) => return Err(error),
    };
    proof {
        value::lemma_models(scene.chunks@);
    }
    let ghost total = scene@.chunks.len();
    let mut list: Vec<RawMesh> = Vec::new();
    assert(mesh_models(list@) =~= Seq::empty());
    let mut i: usize = 0;
    while i < scene.chunks.len()
        invariant
            i <= scene.chunks@.len(),
            meshes(scene@, lod_filter, i as nat) == Ok::<Seq<MeshModel>, Fault>(mesh_models(list@)),
        decreases scene.chunks@.len() - i,
    {
        assert(scene@.chunks[i as int] == scene.chunks@[i as int]@);
        let lod: u64 = match u64_member_or_default(&scene.chunks[i], "lodMask") {
            Ok(lod) => lod,
            Err(error) => {
                proof {
                    lemma_meshes_fail(scene@, lod_filter, (i + 1) as nat, total);
                }
                return Err(error);
            },
        };
        if !(lod_filter && lod != 1) {
            match decode_chunk(&scene, i, lod) {
                Err(error) => {
                    proof {
                        lemma_meshes_fail(scene@, lod_filter, (i + 1) as nat, total);
                    }
                    return Err(error);
                },
                Ok(mesh) => {
                    let ghost before = list@;
                    let ghost content = mesh@;
                    list.push(mesh);
                    assert(mesh_models(list@) =~= mesh_models(before).push(content));
                },
            }
        }
        i = i + 1;
    }
    if list.len() == 0 {
        return Err(MeshError::Reason { reason: "mesh has no exportable render chunks" });
    }
    Ok(Geometry { scale: scene.scale, offset: scene.offset, meshes: list })
}

/// The components of a packed vector: three of ten bits, and a sign.
pub open spec fn dec4(packed: nat) -> (nat, nat, nat, int) {
    (
        packed % 1024,
        packed / 1024 % 1024,
        packed / 0x10_0000 % 1024,
        if packed / 0x4000_0000 == 0 {
            1
        } else if packed / 0x4000_0000 == 3 {
            -1
        } else {
            0
        },
    )
}

/// Takes a packed vector apart.
pub fn decode_dec4(packed: u32) -> (result: (u16, u16, u16, i8))
    ensures
        dec4(packed as nat) == (
            result.0 as nat,
            result.1 as nat,
            result.2 as nat,
            result.3 as int,
        ),
{
    let sign: i8 = match packed / 0x4000_0000 {
        0 => 1,
        3 => -1,
        _ => 0,
    };
    (
        (packed % 1024) as u16,
        (packed / 1024 % 1024) as u16,
        (packed / 0x10_0000 % 1024) as u16,
        sign,
    )
}

} // verus!
