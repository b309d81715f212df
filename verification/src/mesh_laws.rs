//! Decoded meshes are whole.

use crate::binary;
use crate::mesh;
use crate::mesh::{MeshModel, SceneModel};
use crate::value;
use vstd::prelude::*;

verus! {

/// Whether a stream has an element for each of some vertices, or none at all.
pub open spec fn fits(length: nat, vertices: nat) -> bool {
    length == 0 || length == vertices
}

/// Whether a mesh is whole: its indices lead to vertices that it has, and each
/// of its other streams covers all vertices or is left out.
pub open spec fn whole(m: MeshModel) -> bool {
    let n = m.positions.len();
    &&& forall|i: int| 0 <= i < m.indices.len() ==> #[trigger] m.indices[i] < n
    &&& fits(m.normals.len(), n)
    &&& fits(m.tangents.len(), n)
    &&& fits(m.colors.len(), n)
    &&& fits(m.tex_coords.len(), n)
    &&& fits(m.tex_coords_1.len(), n)
}

proof fn lemma_starts(base: nat, stride: nat, width: nat, length: nat, n: nat)
    requires
        mesh::element_starts(base, stride, width, length, n) is Ok,
    ensures
        mesh::element_starts(base, stride, width, length, n)->Ok_0.len() == n,
    decreases n,
{
    if n > 0 {
        lemma_starts(base, stride, width, length, (n - 1) as nat);
    }
}

proof fn lemma_stream(offset: Option<nat>, shift: nat, stride: nat, length: nat, n: nat)
    requires
        mesh::stream_starts(offset, shift, stride, length, n) is Ok,
    ensures
        fits(mesh::stream_starts(offset, shift, stride, length, n)->Ok_0.len(), n),
{
    if let Some(offset) = offset {
        lemma_starts(offset + shift, stride, 4, length, n);
    }
}

proof fn lemma_indices(bytes: Seq<u8>, base: nat, vertices: nat, n: nat)
    requires
        mesh::indices_at(bytes, base, vertices, n) is Ok,
    ensures
        mesh::indices_at(bytes, base, vertices, n)->Ok_0.len() == n,
        forall|i: int|
            0 <= i < n ==> #[trigger] mesh::indices_at(bytes, base, vertices, n)->Ok_0[i]
                < vertices,
    decreases n,
{
    if n > 0 {
        lemma_indices(bytes, base, vertices, (n - 1) as nat);
        let start = mesh::element_start(base, 2, (n - 1) as nat, 2, bytes.len())->Ok_0;
        binary::lemma_byte_ranges();
        binary::law_write_read(bytes.subrange(start as int, (start + 2) as int));
        assert(mesh::word(bytes, start) < 0x1_0000);
    }
}

proof fn lemma_turned(indices: Seq<u16>, vertices: nat)
    requires
        forall|i: int| 0 <= i < indices.len() ==> #[trigger] indices[i] < vertices,
    ensures
        forall|i: int|
            0 <= i < indices.len() ==> #[trigger] mesh::turned(indices)[i] < vertices,
{
    let last = indices.len() - indices.len() % 3;
    assert forall|i: int| 0 <= i < indices.len() implies #[trigger] mesh::turned(indices)[i]
        < vertices by {
        if i < last && i % 3 == 0 {
            assert(last % 3 == 0);
            assert(i + 1 < last);
            assert(indices[i + 1] < vertices);
        } else if i < last && i % 3 == 1 {
            assert(indices[i - 1] < vertices);
        } else {
            assert(indices[i] < vertices);
        }
    }
}

proof fn lemma_chunk(scene: SceneModel, index: nat, lod: nat)
    requires
        mesh::chunk_mesh(scene, index, lod) is Ok,
    ensures
        whole(mesh::chunk_mesh(scene, index, lod)->Ok_0),
{
    let chunk = scene.chunks[index as int];
    let bytes = scene.buffer;
    let layout = mesh::layout_of(chunk)->Ok_0;
    let length = bytes.len();
    let n = layout.vertices;
    let base = mesh::indices_start(chunk, scene.indices)->Ok_0;
    lemma_starts(layout.position, layout.stride, 6, length, n);
    lemma_stream(layout.normal, 0, mesh::shared_stride(layout.tangent), length, n);
    lemma_stream(
        layout.tangent,
        mesh::shared_shift(layout.normal),
        mesh::shared_stride(layout.tangent),
        length,
        n,
    );
    lemma_stream(layout.color, 0, mesh::shared_stride(layout.coordinates_1), length, n);
    lemma_stream(layout.coordinates, 0, 4, length, n);
    lemma_stream(
        layout.coordinates_1,
        mesh::shared_shift(layout.color),
        mesh::shared_stride(layout.coordinates_1),
        length,
        n,
    );
    lemma_indices(bytes, base, n, layout.indices);
    lemma_turned(mesh::indices_at(bytes, base, n, layout.indices)->Ok_0, n);
}

proof fn lemma_meshes(scene: SceneModel, lod_filter: bool, n: nat)
    requires
        mesh::meshes(scene, lod_filter, n) is Ok,
    ensures
        forall|i: int|
            0 <= i < mesh::meshes(scene, lod_filter, n)->Ok_0.len() ==> whole(
                #[trigger] mesh::meshes(scene, lod_filter, n)->Ok_0[i],
            ),
    decreases n,
{
    if n > 0 {
        lemma_meshes(scene, lod_filter, (n - 1) as nat);
        let lod = mesh::number_or_zero(scene.chunks[n - 1], "lodMask"@)->Ok_0;
        if !(lod_filter && lod != 1) {
            lemma_chunk(scene, (n - 1) as nat, lod);
        }
    }
}

/// Every mesh that is decoded out of a document is whole.
pub proof fn law_meshes_whole(document: value::Model, lod_filter: bool)
    requires
        mesh::geometry(document, lod_filter) is Ok,
    ensures
        mesh::geometry(document, lod_filter)->Ok_0.meshes.len() > 0,
        forall|i: int|
            0 <= i < mesh::geometry(document, lod_filter)->Ok_0.meshes.len() ==> whole(
                #[trigger] mesh::geometry(document, lod_filter)->Ok_0.meshes[i],
            ),
{
    let scene = mesh::scene_of(document)->Ok_0;
    lemma_meshes(scene, lod_filter, scene.chunks.len());
}

} // verus!
