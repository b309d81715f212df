//! Where the vertices of a mesh are stored.

use crate::codec_leaf_laws;
use crate::codec_leaf_laws::{eight, four, two, whole, with_sign};
use crate::mesh;
use crate::mesh::{Fault, LayoutModel, MeshModel, SceneModel, StreamsModel};
use crate::object_laws::said;
use crate::value;
use vstd::arithmetic::div_mod::lemma_fundamental_div_mod_converse;
use vstd::prelude::*;

verus! {

// ---------------------------------------------------------------------------
// Layouts
// ---------------------------------------------------------------------------

/// What an element of a layout is for, and the stream it stands in.
pub ghost struct Part {
    pub usage: Seq<char>,
    pub index: nat,
    pub stream: nat,
}

/// Whether a member is a number; zero may be left out.
pub open spec fn numbers(m: value::Model, name: Seq<char>, n: nat) -> bool {
    &&& n <= usize::MAX
    &&& value::member(m, name) == Some(whole(n as int)) || n == 0 && value::member(m, name) is None
}

/// Whether a value is an element of a layout.
pub open spec fn is_part(m: value::Model, part: Part) -> bool {
    &&& value::member(m, "usage"@) == Some(said(part.usage))
    &&& numbers(m, "usageIndex"@, part.index)
    &&& numbers(m, "streamIndex"@, part.stream)
}

/// Where the first element with a usage has its stream, if there is one.
pub open spec fn stream_of(
    parts: Seq<Part>,
    starts: Seq<nat>,
    usage: Seq<char>,
    index: nat,
    offset: Option<nat>,
) -> bool {
    match offset {
        None => forall|i: int|
            0 <= i < parts.len() ==> (#[trigger] parts[i]).usage != usage || parts[i].index != index,
        Some(offset) => exists|k: int|
            0 <= k < parts.len() && (#[trigger] parts[k]).usage == usage && parts[k].index == index
                && parts[k].stream < starts.len() && starts[parts[k].stream as int] == offset && (
            forall|i: int|
                0 <= i < k ==> (#[trigger] parts[i]).usage != usage || parts[i].index != index),
    }
}

/// The layout of a chunk.
pub ghost struct Layout {
    pub vertices: nat,
    pub indices: nat,
    pub parts: Seq<Part>,
    pub starts: Seq<nat>,
    pub strides: Seq<nat>,
}

/// Whether an array holds some numbers.
pub open spec fn number_list(m: value::Model, list: Seq<nat>) -> bool {
    match m {
        value::Model::Array(items) => items.len() == list.len() && forall|i: int|
            0 <= i < list.len() ==> #[trigger] items[i] == whole(list[i] as int) && list[i]
                <= usize::MAX,
        _ => false,
    }
}

/// Whether an array holds the elements of a layout.
pub open spec fn part_list(m: value::Model, parts: Seq<Part>) -> bool {
    match m {
        value::Model::Array(items) => items.len() == parts.len() && forall|i: int|
            0 <= i < parts.len() ==> is_part(#[trigger] items[i], parts[i]),
        _ => false,
    }
}

/// Whether a chunk has a layout.
pub open spec fn laid_out(chunk: value::Model, l: Layout) -> bool {
    &&& l.vertices <= usize::MAX
    &&& l.indices <= usize::MAX
    &&& value::member(chunk, "numVertices"@) == Some(whole(l.vertices as int))
    &&& value::member(chunk, "numIndices"@) == Some(whole(l.indices as int))
    &&& value::member(chunk, "chunkVertices"@) matches Some(content) && value::member(
        content,
        "vertexLayout"@,
    ) matches Some(layout) && value::member(content, "byteOffsets"@) matches Some(starts)
        && value::member(layout, "slotStrides"@) matches Some(strides) && value::member(
        layout,
        "elements"@,
    ) matches Some(parts) && number_list(starts, l.starts) && number_list(strides, l.strides)
        && part_list(parts, l.parts)
}

proof fn lemma_offsets(items: Seq<value::Model>, list: Seq<nat>, n: nat)
    requires
        n <= items.len(),
        number_list(value::Model::Array(items), list),
    ensures
        mesh::offsets(items, n) == Ok::<Seq<nat>, Fault>(list.subrange(0, n as int)),
    decreases n,
{
    if n == 0 {
        assert(list.subrange(0, 0) =~= Seq::<nat>::empty());
    } else {
        lemma_offsets(items, list, (n - 1) as nat);
        assert(items[n - 1] == whole(list[n - 1] as int));
        assert(list.subrange(0, n - 1).push(list[n - 1]) =~= list.subrange(0, n as int));
    }
}

proof fn lemma_usage(
    items: Seq<value::Model>,
    parts: Seq<Part>,
    starts: Seq<nat>,
    usage: Seq<char>,
    index: nat,
    offset: Option<nat>,
    from: nat,
)
    requires
        from <= items.len(),
        part_list(value::Model::Array(items), parts),
        stream_of(parts, starts, usage, index, offset),
        forall|i: int|
            0 <= i < from ==> (#[trigger] parts[i]).usage != usage || parts[i].index != index,
    ensures
        match mesh::usage_element(items, usage, index, from) {
            None => offset is None,
            Some(m) => offset is Some && exists|k: int|
                0 <= k < parts.len() && m == #[trigger] items[k] && parts[k].stream < starts.len()
                    && starts[parts[k].stream as int] == offset->0,
        },
    decreases items.len() - from,
{
    if from < items.len() {
        let part = parts[from as int];
        assert(is_part(items[from as int], part));
        if part.usage == usage && part.index == index {
            assert(offset is Some);
            let k = choose|k: int|
                0 <= k < parts.len() && (#[trigger] parts[k]).usage == usage && parts[k].index
                    == index && parts[k].stream < starts.len() && starts[parts[k].stream as int]
                    == offset->0 && (forall|i: int|
                    0 <= i < k ==> (#[trigger] parts[i]).usage != usage || parts[i].index != index);
            assert(k == from);
            assert(mesh::has_usage(items[from as int], usage, index));
        } else {
            assert(!mesh::has_usage(items[from as int], usage, index));
            lemma_usage(items, parts, starts, usage, index, offset, from + 1);
        }
    }
}

proof fn lemma_stream(
    items: Seq<value::Model>,
    parts: Seq<Part>,
    starts: Seq<nat>,
    usage: Seq<char>,
    index: nat,
    offset: Option<nat>,
)
    requires
        part_list(value::Model::Array(items), parts),
        stream_of(parts, starts, usage, index, offset),
    ensures
        mesh::usage_offset(items, starts, usage, index) == Ok::<Option<nat>, Fault>(offset),
{
    lemma_usage(items, parts, starts, usage, index, offset, 0);
    match mesh::usage_element(items, usage, index, 0) {
        None => {},
        Some(m) => {
            let k = choose|k: int|
                0 <= k < parts.len() && m == #[trigger] items[k] && parts[k].stream < starts.len()
                    && starts[parts[k].stream as int] == offset->0;
            assert(is_part(items[k], parts[k]));
        },
    }
}

/// Where the streams of a chunk start, those that it has.
pub ghost struct Places {
    pub position: nat,
    pub normal: Option<nat>,
    pub tangent: Option<nat>,
    pub color: Option<nat>,
    pub coordinates: Option<nat>,
    pub coordinates_1: Option<nat>,
}

/// Whether the streams of a layout start at some places.
pub open spec fn placed(l: Layout, p: Places) -> bool {
    &&& stream_of(l.parts, l.starts, "PS_Position"@, 0, Some(p.position))
    &&& stream_of(l.parts, l.starts, "PS_Normal"@, 0, p.normal)
    &&& stream_of(l.parts, l.starts, "PS_Tangent"@, 0, p.tangent)
    &&& stream_of(l.parts, l.starts, "PS_Color"@, 0, p.color)
    &&& stream_of(l.parts, l.starts, "PS_TexCoord"@, 0, p.coordinates)
    &&& stream_of(l.parts, l.starts, "PS_TexCoord"@, 1, p.coordinates_1)
}

proof fn lemma_layout(chunk: value::Model, l: Layout, p: Places)
    requires
        laid_out(chunk, l),
        placed(l, p),
        l.strides.len() > 0,
    ensures
        mesh::layout_of(chunk) == Ok::<LayoutModel, Fault>(
            LayoutModel {
                vertices: l.vertices,
                indices: l.indices,
                position: p.position,
                stride: l.strides[0],
                coordinates: p.coordinates,
                coordinates_1: p.coordinates_1,
                normal: p.normal,
                tangent: p.tangent,
                color: p.color,
            },
        ),
{
    let content = value::member(chunk, "chunkVertices"@)->0;
    let layout = value::member(content, "vertexLayout"@)->0;
    let starts = value::member(content, "byteOffsets"@)->0->Array_0;
    let strides = value::member(layout, "slotStrides"@)->0->Array_0;
    let items = value::member(layout, "elements"@)->0->Array_0;
    lemma_offsets(starts, l.starts, starts.len());
    lemma_offsets(strides, l.strides, strides.len());
    assert(l.starts.subrange(0, starts.len() as int) =~= l.starts);
    assert(l.strides.subrange(0, strides.len() as int) =~= l.strides);
    lemma_stream(items, l.parts, l.starts, "PS_Position"@, 0, Some(p.position));
    lemma_stream(items, l.parts, l.starts, "PS_Normal"@, 0, p.normal);
    lemma_stream(items, l.parts, l.starts, "PS_Tangent"@, 0, p.tangent);
    lemma_stream(items, l.parts, l.starts, "PS_Color"@, 0, p.color);
    lemma_stream(items, l.parts, l.starts, "PS_TexCoord"@, 0, p.coordinates);
    lemma_stream(items, l.parts, l.starts, "PS_TexCoord"@, 1, p.coordinates_1);
}

// ---------------------------------------------------------------------------
// Streams
// ---------------------------------------------------------------------------

/// Whether each of some elements of a stream lies in the buffer.
pub open spec fn inside(base: nat, stride: nat, width: nat, n: nat, length: nat) -> bool {
    &&& base <= usize::MAX
    &&& forall|i: nat| i < n ==> base + #[trigger] (stride * i) + width <= length
}

/// Whether each element of a stream, if there is one, lies in the buffer.
pub open spec fn stream_inside(
    offset: Option<nat>,
    shift: nat,
    stride: nat,
    n: nat,
    length: nat,
) -> bool {
    match offset {
        None => true,
        Some(offset) => inside(offset + shift, stride, 4, n, length),
    }
}

spec fn spots(base: nat, stride: nat, n: nat) -> Seq<nat> {
    Seq::new(n, |i: int| base + stride * (i as nat))
}

proof fn lemma_spots(base: nat, stride: nat, width: nat, length: nat, n: nat)
    requires
        inside(base, stride, width, n, length),
        length <= usize::MAX,
    ensures
        mesh::element_starts(base, stride, width, length, n) == Ok::<Seq<nat>, Fault>(
            spots(base, stride, n),
        ),
    decreases n,
{
    if n == 0 {
        assert(spots(base, stride, 0) =~= Seq::<nat>::empty());
    } else {
        let k = (n - 1) as nat;
        lemma_spots(base, stride, width, length, k);
        assert(base + stride * k + width <= length);
        assert(k * stride == stride * k) by (nonlinear_arith);
        assert(spots(base, stride, k).push(base + stride * k) =~= spots(base, stride, n));
    }
}

/// How far a tangent, or a second coordinate, stands behind the start of its stream: by
/// the size of the normal, or of the colour, that it shares the stream with.
pub open spec fn behind(first: Option<nat>) -> nat {
    match first {
        Some(_) => 4,
        None => 0,
    }
}

/// How far the elements of a stream stand apart that may hold two of them.
pub open spec fn apart(second: Option<nat>) -> nat {
    match second {
        Some(_) => 8,
        None => 4,
    }
}

/// Whether all streams of a chunk lie in the buffer.
pub open spec fn all_inside(l: Layout, p: Places, length: nat) -> bool {
    let n = l.vertices;
    &&& inside(p.position, l.strides[0], 6, n, length)
    &&& stream_inside(p.normal, 0, apart(p.tangent), n, length)
    &&& stream_inside(p.tangent, behind(p.normal), 8, n, length)
    &&& stream_inside(p.color, 0, apart(p.coordinates_1), n, length)
    &&& stream_inside(p.coordinates, 0, 4, n, length)
    &&& stream_inside(p.coordinates_1, behind(p.color), 8, n, length)
}

spec fn stream_spots(offset: Option<nat>, shift: nat, stride: nat, n: nat) -> Seq<nat> {
    match offset {
        None => Seq::empty(),
        Some(offset) => spots(offset + shift, stride, n),
    }
}

proof fn lemma_stream_spots(offset: Option<nat>, shift: nat, stride: nat, length: nat, n: nat)
    requires
        stream_inside(offset, shift, stride, n, length),
        length <= usize::MAX,
    ensures
        mesh::stream_starts(offset, shift, stride, length, n) == Ok::<Seq<nat>, Fault>(
            stream_spots(offset, shift, stride, n),
        ),
{
    if let Some(offset) = offset {
        lemma_spots(offset + shift, stride, 4, length, n);
    }
}

/// Where the index buffer of a chunk starts.
pub open spec fn indexed_from(chunk: value::Model, common: nat, base: nat) -> bool {
    &&& common <= base <= usize::MAX
    &&& value::member(chunk, "chunkIndices"@) matches Some(content) && numbers(
        content,
        "teOffset"@,
        (base - common) as nat,
    )
}

proof fn lemma_indices(bytes: Seq<u8>, base: nat, vertices: nat, n: nat)
    requires
        bytes.len() <= usize::MAX,
        inside(base, 2, 2, n, bytes.len()),
        forall|i: nat| i < n ==> #[trigger] two(bytes, base + 2 * i) < vertices,
    ensures
        mesh::indices_at(bytes, base, vertices, n) == Ok::<Seq<u16>, Fault>(
            Seq::new(n, |i: int| two(bytes, base + 2 * (i as nat)) as u16),
        ),
    decreases n,
{
    let all = Seq::new(n, |i: int| two(bytes, base + 2 * (i as nat)) as u16);
    if n == 0 {
        assert(all =~= Seq::<u16>::empty());
    } else {
        let k = (n - 1) as nat;
        lemma_indices(bytes, base, vertices, k);
        assert(base + 2 * k + 2 <= bytes.len()) by {
            assert(base + (2 * k) + 2 <= bytes.len());
        }
        codec_leaf_laws::lemma_numbers(bytes, base + 2 * k);
        let before = Seq::new(k, |i: int| two(bytes, base + 2 * (i as nat)) as u16);
        assert(before.push(two(bytes, base + 2 * k) as u16) =~= all);
    }
}

/// Whether a mesh has the vertices that stand at some places of a buffer.
pub open spec fn has_vertices(m: MeshModel, b: Seq<u8>, n: nat, stride: nat, p: Places) -> bool {
    &&& m.positions.len() == n
    &&& forall|i: nat|
        i < n ==> #[trigger] m.positions[i as int] == (
            with_sign(two(b, p.position + stride * i), 0x8000) as i16,
            with_sign(two(b, p.position + stride * i + 2), 0x8000) as i16,
            with_sign(two(b, p.position + stride * i + 4), 0x8000) as i16,
        )
    &&& match p.normal {
        None => m.normals.len() == 0,
        Some(at) => m.normals.len() == n && forall|i: nat|
            i < n ==> #[trigger] m.normals[i as int] == four(b, at + apart(p.tangent) * i),
    }
    &&& match p.tangent {
        None => m.tangents.len() == 0,
        Some(at) => m.tangents.len() == n && forall|i: nat|
            i < n ==> #[trigger] m.tangents[i as int] == four(b, at + behind(p.normal) + 8 * i),
    }
    &&& match p.color {
        None => m.colors.len() == 0,
        Some(at) => m.colors.len() == n && forall|i: nat|
            i < n ==> #[trigger] m.colors[i as int] == (
                b[at as int + apart(p.coordinates_1) * i],
                b[at as int + apart(p.coordinates_1) * i + 1],
                b[at as int + apart(p.coordinates_1) * i + 2],
                b[at as int + apart(p.coordinates_1) * i + 3],
            ),
    }
    &&& match p.coordinates {
        None => m.tex_coords.len() == 0,
        Some(at) => m.tex_coords.len() == n && forall|i: nat|
            i < n ==> #[trigger] m.tex_coords[i as int] == (
                two(b, at + 4 * i) as u16,
                two(b, at + 4 * i + 2) as u16,
            ),
    }
    &&& match p.coordinates_1 {
        None => m.tex_coords_1.len() == 0,
        Some(at) => m.tex_coords_1.len() == n && forall|i: nat|
            i < n ==> #[trigger] m.tex_coords_1[i as int] == (
                two(b, at + behind(p.color) + 8 * i) as u16,
                two(b, at + behind(p.color) + 8 * i + 2) as u16,
            ),
    }
}

/// Whether a mesh has the indices that stand at a place of a buffer. The first two of
/// each triangle are changed over; what is left behind the last triangle stays.
pub open spec fn has_indices(m: MeshModel, b: Seq<u8>, n: nat, base: nat) -> bool {
    &&& m.indices.len() == n
    &&& forall|k: nat|
        #[trigger] (3 * k) + 2 < n ==> m.indices[3 * k as int] == two(b, base + 2 * (3 * k + 1))
            && m.indices[3 * k as int + 1] == two(b, base + 2 * (3 * k)) && m.indices[3 * k as int
            + 2] == two(b, base + 2 * (3 * k + 2))
    &&& forall|i: nat|
        i < n && i >= n - n % 3 ==> #[trigger] m.indices[i as int] == two(b, base + 2 * i)
}

proof fn lemma_words(b: Seq<u8>, starts: Seq<nat>, width: nat)
    requires
        forall|i: int| 0 <= i < starts.len() ==> #[trigger] starts[i] + width <= b.len(),
    ensures
        width >= 4 ==> forall|i: int|
            0 <= i < starts.len() ==> #[trigger] mesh::packed_at(b, starts)[i] == four(
                b,
                starts[i],
            ),
        width >= 4 ==> forall|i: int|
            0 <= i < starts.len() ==> #[trigger] mesh::coordinates_at(b, starts)[i] == (
                two(b, starts[i]) as u16,
                two(b, starts[i] + 2) as u16,
            ),
        width >= 6 ==> forall|i: int|
            0 <= i < starts.len() ==> #[trigger] mesh::positions_at(b, starts)[i] == (
                with_sign(two(b, starts[i]), 0x8000) as i16,
                with_sign(two(b, starts[i] + 2), 0x8000) as i16,
                with_sign(two(b, starts[i] + 4), 0x8000) as i16,
            ),
{
    assert forall|i: int| 0 <= i < starts.len() && width >= 4 implies #[trigger] mesh::packed_at(
        b,
        starts,
    )[i] == four(b, starts[i]) by {
        assert(starts[i] + width <= b.len());
        codec_leaf_laws::lemma_numbers(b, starts[i]);
    }
    assert forall|i: int|
        0 <= i < starts.len() && width >= 4 implies #[trigger] mesh::coordinates_at(b, starts)[i]
        == (two(b, starts[i]) as u16, two(b, starts[i] + 2) as u16) by {
        assert(starts[i] + width <= b.len());
        codec_leaf_laws::lemma_numbers(b, starts[i]);
        codec_leaf_laws::lemma_numbers(b, starts[i] + 2);
    }
    assert forall|i: int| 0 <= i < starts.len() && width >= 6 implies #[trigger] mesh::positions_at(
        b,
        starts,
    )[i] == (
        with_sign(two(b, starts[i]), 0x8000) as i16,
        with_sign(two(b, starts[i] + 2), 0x8000) as i16,
        with_sign(two(b, starts[i] + 4), 0x8000) as i16,
    ) by {
        assert(starts[i] + width <= b.len());
        codec_leaf_laws::lemma_numbers(b, starts[i]);
        codec_leaf_laws::lemma_numbers(b, starts[i] + 2);
        codec_leaf_laws::lemma_numbers(b, starts[i] + 4);
    }
}

proof fn lemma_spots_inside(base: nat, stride: nat, width: nat, length: nat, n: nat)
    requires
        inside(base, stride, width, n, length),
    ensures
        forall|i: int|
            0 <= i < n ==> #[trigger] spots(base, stride, n)[i] + width <= length,
{
    assert forall|i: int| 0 <= i < n implies #[trigger] spots(base, stride, n)[i] + width
        <= length by {
        let k = i as nat;
        assert(base + (stride * k) + width <= length);
    }
}

proof fn lemma_stream_inside(
    b: Seq<u8>,
    offset: Option<nat>,
    shift: nat,
    stride: nat,
    n: nat,
)
    requires
        stream_inside(offset, shift, stride, n, b.len()),
    ensures
        ({
            let starts = stream_spots(offset, shift, stride, n);
            &&& forall|i: int| 0 <= i < starts.len() ==> #[trigger] starts[i] + 4 <= b.len()
        }),
{
    if let Some(offset) = offset {
        lemma_spots_inside(offset + shift, stride, 4, b.len(), n);
    }
}

proof fn lemma_vertices(m: MeshModel, b: Seq<u8>, l: Layout, p: Places)
    requires
        l.strides.len() > 0,
        all_inside(l, p, b.len()),
        ({
            let n = l.vertices;
            &&& m.positions == mesh::positions_at(b, spots(p.position, l.strides[0], n))
            &&& m.normals == mesh::packed_at(b, stream_spots(p.normal, 0, apart(p.tangent), n))
            &&& m.tangents == mesh::packed_at(
                b,
                stream_spots(p.tangent, behind(p.normal), 8, n),
            )
            &&& m.colors == mesh::colors_at(
                b,
                stream_spots(p.color, 0, apart(p.coordinates_1), n),
            )
            &&& m.tex_coords == mesh::coordinates_at(b, stream_spots(p.coordinates, 0, 4, n))
            &&& m.tex_coords_1 == mesh::coordinates_at(
                b,
                stream_spots(p.coordinates_1, behind(p.color), 8, n),
            )
        }),
    ensures
        has_vertices(m, b, l.vertices, l.strides[0], p),
{
    let n = l.vertices;
    let stride = l.strides[0];
    lemma_spots_inside(p.position, stride, 6, b.len(), n);
    lemma_words(b, spots(p.position, stride, n), 6);
    lemma_stream_inside(b, p.normal, 0, apart(p.tangent), n);
    lemma_words(b, stream_spots(p.normal, 0, apart(p.tangent), n), 4);
    lemma_stream_inside(b, p.tangent, behind(p.normal), 8, n);
    lemma_words(b, stream_spots(p.tangent, behind(p.normal), 8, n), 4);
    lemma_stream_inside(b, p.coordinates, 0, 4, n);
    lemma_words(b, stream_spots(p.coordinates, 0, 4, n), 4);
    lemma_stream_inside(b, p.coordinates_1, behind(p.color), 8, n);
    lemma_words(b, stream_spots(p.coordinates_1, behind(p.color), 8, n), 4);
}

proof fn lemma_turned(m: MeshModel, b: Seq<u8>, n: nat, base: nat)
    requires
        m.indices == mesh::turned(
            Seq::new(n, |i: int| two(b, base + 2 * (i as nat)) as u16),
        ),
    ensures
        has_indices(m, b, n, base),
{
    let plain = Seq::new(n, |i: int| two(b, base + 2 * (i as nat)) as u16);
    assert forall|k: nat| #[trigger] (3 * k) + 2 < n implies m.indices[3 * k as int] == two(
        b,
        base + 2 * (3 * k + 1),
    ) && m.indices[3 * k as int + 1] == two(b, base + 2 * (3 * k)) && m.indices[3 * k as int + 2]
        == two(b, base + 2 * (3 * k + 2)) by {
        let i = 3 * k as int;
        assert(i % 3 == 0 && (i + 1) % 3 == 1 && (i + 2) % 3 == 2);
        let last = n - n % 3;
        assert(last % 3 == 0);
        assert(i + 2 < last);
    }
}

/// The vertices of a chunk are those at the places that its layout gives. Where a chunk
/// has normals and tangents, each normal stands in the first four of eight bytes and each
/// tangent in the other four, and likewise each colour and each second coordinate. Its
/// triangles are those of its index buffer, turned over.
pub proof fn law_chunk_read(
    scene: SceneModel,
    index: nat,
    lod: nat,
    l: Layout,
    p: Places,
    base: nat,
)
    requires
        index < scene.chunks.len(),
        scene.buffer.len() <= usize::MAX,
        laid_out(scene.chunks[index as int], l),
        placed(l, p),
        l.strides.len() > 0,
        all_inside(l, p, scene.buffer.len()),
        indexed_from(scene.chunks[index as int], scene.indices, base),
        inside(base, 2, 2, l.indices, scene.buffer.len()),
        forall|i: nat| i < l.indices ==> #[trigger] two(scene.buffer, base + 2 * i) < l.vertices,
    ensures
        mesh::chunk_mesh(scene, index, lod) matches Ok(m) && has_vertices(
            m,
            scene.buffer,
            l.vertices,
            l.strides[0],
            p,
        ) && has_indices(m, scene.buffer, l.indices, base),
{
    let chunk = scene.chunks[index as int];
    let b = scene.buffer;
    let n = l.vertices;
    lemma_layout(chunk, l, p);
    lemma_spots(p.position, l.strides[0], 6, b.len(), n);
    lemma_stream_spots(p.normal, 0, apart(p.tangent), b.len(), n);
    lemma_stream_spots(p.tangent, behind(p.normal), 8, b.len(), n);
    lemma_stream_spots(p.color, 0, apart(p.coordinates_1), b.len(), n);
    lemma_stream_spots(p.coordinates, 0, 4, b.len(), n);
    lemma_stream_spots(p.coordinates_1, behind(p.color), 8, b.len(), n);
    let layout = mesh::layout_of(chunk)->Ok_0;
    assert(mesh::streams_of(layout, b.len()) == Ok::<StreamsModel, Fault>(
        StreamsModel {
            positions: spots(p.position, l.strides[0], n),
            normals: stream_spots(p.normal, 0, apart(p.tangent), n),
            tangents: stream_spots(p.tangent, behind(p.normal), 8, n),
            colors: stream_spots(p.color, 0, apart(p.coordinates_1), n),
            coordinates: stream_spots(p.coordinates, 0, 4, n),
            coordinates_1: stream_spots(p.coordinates_1, behind(p.color), 8, n),
        },
    ));
    assert(mesh::indices_start(chunk, scene.indices) == Ok::<nat, Fault>(base));
    lemma_indices(b, base, n, l.indices);
    let m = mesh::chunk_mesh(scene, index, lod)->Ok_0;
    lemma_vertices(m, b, l, p);
    lemma_turned(m, b, l.indices, base);
}

/// A normal and a tangent that share a stream are the two halves of eight bytes, and so
/// are a colour and a second coordinate: none has a byte of another.
pub proof fn law_streams_apart(m: MeshModel, b: Seq<u8>, n: nat, stride: nat, p: Places, i: nat)
    requires
        has_vertices(m, b, n, stride, p),
        i < n,
    ensures
        p.normal is Some && p.normal == p.tangent ==> m.normals[i as int] + 0x1_0000_0000
            * m.tangents[i as int] == eight(b, p.normal->0 + 8 * i),
        p.color is Some && p.color == p.coordinates_1 ==> m.colors[i as int].0 + 0x100
            * m.colors[i as int].1 + 0x1_0000 * m.colors[i as int].2 + 0x100_0000
            * m.colors[i as int].3 + 0x1_0000_0000 * m.tex_coords_1[i as int].0
            + 0x1_0000_0000_0000 * m.tex_coords_1[i as int].1 == eight(b, p.color->0 + 8 * i),
{
    if p.normal is Some && p.normal == p.tangent {
        let at = p.normal->0;
        assert(m.normals[i as int] == four(b, at + 8 * i));
        assert(m.tangents[i as int] == four(b, at + 4 + 8 * i));
        assert(at + 4 + 8 * i == at + 8 * i + 4);
    }
    if p.color is Some && p.color == p.coordinates_1 {
        let at = p.color->0;
        assert(m.tex_coords_1[i as int] == (
            two(b, at + 4 + 8 * i) as u16,
            two(b, at + 4 + 8 * i + 2) as u16,
        ));
        assert(at + 4 + 8 * i == at + 8 * i + 4);
        let c = m.colors[i as int];
        assert(c.0 == b[at as int + 8 * i]);
    }
}

/// A packed vector has three components of ten bits, the low ones first, and a sign in
/// the two bits behind them: none for plus, both for minus.
pub proof fn law_packed_vector(x: nat, y: nat, z: nat, w: nat)
    requires
        x < 1024,
        y < 1024,
        z < 1024,
        w < 4,
    ensures
        mesh::dec4(x + 0x400 * y + 0x10_0000 * z + 0x4000_0000 * w) == (
            x,
            y,
            z,
            if w == 0 {
                1int
            } else if w == 3 {
                -1
            } else {
                0
            },
        ),
{
    let packed = x + 0x400 * y + 0x10_0000 * z + 0x4000_0000 * w;
    let h2 = z + 0x400 * w;
    let h1 = y + 0x400 * h2;
    assert(packed == x + 0x400 * h1);
    lemma_fundamental_div_mod_converse(packed as int, 0x400, h1 as int, x as int);
    lemma_fundamental_div_mod_converse(h1 as int, 0x400, h2 as int, y as int);
    assert(packed / 0x10_0000 == h2);
    lemma_fundamental_div_mod_converse(h2 as int, 0x400, w as int, z as int);
    assert(packed / 0x4000_0000 == w);
}

/// A chunk has the material at its own place among those of an appearance. Behind the
/// last of fewer materials than chunks they are taken from the first on again.
pub proof fn law_chunk_material(materials: Seq<Seq<char>>, count: nat, round: nat, place: nat)
    requires
        0 < materials.len() <= count,
        place < materials.len(),
    ensures
        mesh::chunk_material(materials, materials.len() * round + place, count)
            == materials[place as int],
{
    let len = materials.len();
    let index = len * round + place;
    if round > 0 {
        let less = (round - 1) as nat;
        assert(len * round == less * len + len) by (nonlinear_arith)
            requires
                round == less + 1,
        ;
        lemma_fundamental_div_mod_converse(index - len, len as int, less as int, place as int);
    } else {
        assert(len * round == 0) by (nonlinear_arith)
            requires
                round == 0,
        ;
    }
}

// ---------------------------------------------------------------------------
// Chunks
// ---------------------------------------------------------------------------

#[verifier::opaque]
spec fn one(scene: SceneModel, index: nat, lod: nat) -> Result<MeshModel, Fault> {
    mesh::chunk_mesh(scene, index, lod)
}

#[verifier::opaque]
spec fn several(scene: SceneModel, lod_filter: bool, n: nat) -> Result<Seq<MeshModel>, Fault> {
    mesh::meshes(scene, lod_filter, n)
}

proof fn lemma_several(scene: SceneModel, lod_filter: bool, n: nat)
    ensures
        n == 0 ==> several(scene, lod_filter, n) == Ok::<Seq<MeshModel>, Fault>(Seq::empty()),
        n > 0 ==> several(scene, lod_filter, n) == match several(
            scene,
            lod_filter,
            (n - 1) as nat,
        ) {
            Err(f) => Err(f),
            Ok(before) => match mesh::number_or_zero(scene.chunks[n - 1], "lodMask"@) {
                Err(f) => Err(f),
                Ok(lod) => if lod_filter && lod != 1 {
                    Ok(before)
                } else {
                    match one(scene, (n - 1) as nat, lod) {
                        Err(f) => Err(f),
                        Ok(mesh) => Ok(before.push(mesh)),
                    }
                },
            },
        },
{
    reveal(one);
    reveal(several);
}

proof fn lemma_kept(scene: SceneModel, lod_filter: bool, lods: Seq<nat>, kept: Seq<nat>, n: nat)
    requires
        n <= scene.chunks.len(),
        lods.len() == scene.chunks.len(),
        forall|i: int|
            0 <= i < lods.len() ==> numbers(#[trigger] scene.chunks[i], "lodMask"@, lods[i]),
        forall|i: int, j: int| 0 <= i < j < kept.len() ==> #[trigger] kept[i] < #[trigger] kept[j],
        forall|k: int| 0 <= k < kept.len() ==> #[trigger] kept[k] < n,
        forall|i: nat|
            i < n ==> (#[trigger] kept.contains(i) <==> (!lod_filter || lods[i as int] == 1)),
        forall|k: int|
            0 <= k < kept.len() ==> one(
                scene,
                #[trigger] kept[k],
                lods[kept[k] as int],
            ) is Ok,
    ensures
        several(scene, lod_filter, n) matches Ok(list) && list.len() == kept.len() && forall|
            k: int,
        |
            0 <= k < kept.len() ==> Ok::<MeshModel, Fault>(#[trigger] list[k]) == one(
                scene,
                kept[k],
                lods[kept[k] as int],
            ),
    decreases n,
{
    if n == 0 {
        lemma_several(scene, lod_filter, 0);
        if kept.len() > 0 {
            assert(kept[0] < 0);
        }
    } else {
        let last = (n - 1) as nat;
        lemma_several(scene, lod_filter, n);
        assert(numbers(scene.chunks[n - 1], "lodMask"@, lods[n - 1]));
        if !lod_filter || lods[n - 1] == 1 {
            assert(kept.contains(last));
            let k = choose|k: int| 0 <= k < kept.len() && kept[k] == last;
            if k < kept.len() - 1 {
                assert(kept[k] < kept[kept.len() - 1]);
            }
            let front = kept.drop_last();
            assert forall|i: int| 0 <= i < front.len() implies #[trigger] front[i] < last by {
                assert(kept[i] < kept[kept.len() - 1]);
            }
            assert forall|i: nat| i < last implies (#[trigger] front.contains(i) <==> (!lod_filter
                || lods[i as int] == 1)) by {
                assert(kept.contains(i) <==> (!lod_filter || lods[i as int] == 1));
                if kept.contains(i) {
                    let j = choose|j: int| 0 <= j < kept.len() && kept[j] == i;
                    assert(front[j] == i);
                }
                if front.contains(i) {
                    let j = choose|j: int| 0 <= j < front.len() && front[j] == i;
                    assert(kept[j] == i);
                }
            }
            assert forall|i: int| 0 <= i < front.len() implies one(
                scene,
                #[trigger] front[i],
                lods[front[i] as int],
            ) is Ok by {
                assert(one(scene, kept[i], lods[kept[i] as int]) is Ok);
            }
            assert forall|i: int, j: int| 0 <= i < j < front.len() implies #[trigger] front[i]
                < #[trigger] front[j] by {
                assert(kept[i] < kept[j]);
            }
            lemma_kept(scene, lod_filter, lods, front, last);
            assert(one(scene, kept[k], lods[kept[k] as int]) is Ok);
        } else {
            assert(!kept.contains(last));
            assert forall|k: int| 0 <= k < kept.len() implies #[trigger] kept[k] < last by {
                assert(kept.contains(kept[k]));
            }
            lemma_kept(scene, lod_filter, lods, kept, last);
        }
    }
}

/// The meshes of a scene are those of its chunks in their order, or of those in full
/// detail where the others are left out.
pub proof fn law_chunks_in_order(
    scene: SceneModel,
    lod_filter: bool,
    lods: Seq<nat>,
    kept: Seq<nat>,
)
    requires
        lods.len() == scene.chunks.len(),
        forall|i: int|
            0 <= i < lods.len() ==> numbers(#[trigger] scene.chunks[i], "lodMask"@, lods[i]),
        forall|i: int, j: int| 0 <= i < j < kept.len() ==> #[trigger] kept[i] < #[trigger] kept[j],
        forall|k: int| 0 <= k < kept.len() ==> #[trigger] kept[k] < lods.len(),
        forall|i: nat|
            i < lods.len() ==> (#[trigger] kept.contains(i) <==> (!lod_filter || lods[i as int]
                == 1)),
        forall|k: int|
            0 <= k < kept.len() ==> mesh::chunk_mesh(
                scene,
                #[trigger] kept[k],
                lods[kept[k] as int],
            ) is Ok,
    ensures
        mesh::meshes(scene, lod_filter, scene.chunks.len()) matches Ok(list) && list.len()
            == kept.len() && forall|k: int|
            0 <= k < kept.len() ==> Ok::<MeshModel, Fault>(#[trigger] list[k]) == mesh::chunk_mesh(
                scene,
                kept[k],
                lods[kept[k] as int],
            ),
{
    reveal(one);
    reveal(several);
    lemma_kept(scene, lod_filter, lods, kept, scene.chunks.len());
}

} // verus!
