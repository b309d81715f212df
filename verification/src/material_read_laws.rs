//! Which members of a document the parts of a material are read from.

use crate::codec_leaf_laws::four;
use crate::codec_leaf_laws;
use crate::material;
use crate::material_mask;
use crate::material_records;
use crate::material_records::SourceModel;
use crate::material_texture;
use crate::material::Fault;
use crate::object_laws::said;
use crate::text;
use crate::value;
use vstd::prelude::*;

verus! {

/// Whether a member is a number.
pub open spec fn numbers(m: value::Model, name: Seq<char>, n: nat) -> bool {
    &&& n <= usize::MAX
    &&& value::member(m, name) matches Some(found) && value::integer_of(found) == Some(n as i128)
}

/// Whether a member holds bytes.
pub open spec fn holds_bytes(m: value::Model, name: Seq<char>, bytes: Seq<u8>) -> bool {
    &&& value::member(m, name) matches Some(holder) && value::member(holder, "Bytes"@) matches Some(
        value::Model::Text(encoded),
    ) && text::base64_bytes(encoded) == Some(bytes)
}

/// The sizes of a mask are read from the members of their names.
pub proof fn law_mask_header(header: value::Model)
    requires
        material_mask::header_of(header) is Ok,
    ensures
        ({
            let h = material_mask::header_of(header)->Ok_0;
            &&& numbers(header, "atlasWidth"@, h.atlas_width)
            &&& numbers(header, "atlasHeight"@, h.atlas_height)
            &&& numbers(header, "numLayers"@, h.layers)
            &&& numbers(header, "maskWidth"@, h.width)
            &&& numbers(header, "maskHeight"@, h.height)
            &&& numbers(header, "maskWidthLow"@, h.low_width)
            &&& numbers(header, "maskHeightLow"@, h.low_height)
            &&& numbers(header, "maskTileSize"@, h.tile_size)
            &&& h.tile_size > 0
        }),
{
}

/// A mask has the sizes of its header and the words of its tiles, four bytes each.
pub proof fn law_mask_read(document: value::Model) -> (r: (value::Model, value::Model, Seq<u8>))
    requires
        material_mask::mask_of(document) is Ok,
    ensures
        ({
            let (m, layers) = material_mask::mask_of(document)->Ok_0;
            let (blob, header, tiles) = r;
            &&& material_mask::blob_of(document) == Ok::<value::Model, Fault>(blob)
            &&& value::member(blob, "header"@) == Some(header)
            &&& numbers(header, "maskWidth"@, m.width)
            &&& numbers(header, "maskHeight"@, m.height)
            &&& numbers(header, "maskWidthLow"@, m.low_width)
            &&& numbers(header, "maskHeightLow"@, m.low_height)
            &&& numbers(header, "maskTileSize"@, m.tile_size)
            &&& numbers(header, "atlasWidth"@, m.atlas_width)
            &&& numbers(header, "numLayers"@, layers)
            &&& holds_bytes(blob, "tilesData"@, tiles)
            &&& m.tiles.len() == tiles.len() / 4
            &&& forall|i: nat|
                i < m.tiles.len() ==> #[trigger] m.tiles[i as int] == four(tiles, 4 * i)
        }),
{
    let blob = material_mask::blob_of(document)->Ok_0;
    let header = material::field(blob, "header"@)->Ok_0;
    law_mask_header(header);
    let tiles = material_mask::bytes_in(blob, "tilesData"@)->Ok_0;
    let m = material_mask::mask_of(document)->Ok_0.0;
    assert forall|i: nat| i < m.tiles.len() implies #[trigger] m.tiles[i as int] == four(
        tiles,
        4 * i,
    ) by {
        codec_leaf_laws::lemma_numbers(tiles, 4 * i);
    }
    (blob, header, tiles)
}

/// Whether a mip map stands at a place.
pub open spec fn is_placed(mip: value::Model, offset: nat, size: nat) -> bool {
    &&& value::member(mip, "placement"@) matches Some(place) && numbers(place, "size"@, size) && (
    numbers(place, "offset"@, offset) || offset == 0)
}

/// A texture is read with the size that its header gives, and the bytes of its first
/// mip map, which stand at the place of that.
pub proof fn law_texture_header(header: value::Model)
    requires
        material_texture::header_of(header) is Ok,
    ensures
        ({
            let (width, height, offset, size) = material_texture::header_of(header)->Ok_0;
            &&& value::member(header, "sizeInfo"@) matches Some(info) && numbers(
                info,
                "width"@,
                width,
            ) && numbers(info, "height"@, height)
            &&& value::member(header, "mipMapInfo"@) matches Some(value::Model::Array(mips))
                && mips.len() > 0 && is_placed(mips[0], offset, size)
        }),
{
}

/// The bytes of a mip map are those from its offset on.
pub proof fn law_texture_data(blob: value::Model, offset: nat, size: nat, bytes: Seq<u8>)
    requires
        holds_bytes(blob, "textureData"@, bytes),
        offset + size <= usize::MAX,
    ensures
        material_texture::data_of(blob, offset, size) is Ok <==> offset + size <= bytes.len(),
        offset + size <= bytes.len() ==> ({
            let data = material_texture::data_of(blob, offset, size)->Ok_0;
            &&& data.len() == size
            &&& forall|i: int| 0 <= i < size ==> #[trigger] data[i] == bytes[offset + i]
        }),
{
}

/// A material that is local stands in the bytes of the mesh, from the offset of its
/// header on, with the size of that. Another is the resource that the external material
/// at its place refers to.
pub proof fn law_material_source(
    entry: value::Model,
    headers: Seq<value::Model>,
    external: Seq<value::Model>,
    length: nat,
    index: nat,
    start: nat,
    size: nat,
    path: Seq<char>,
)
    requires
        numbers(entry, "index"@, index) || index == 0 && value::member(entry, "index"@) is None,
        start + size <= usize::MAX,
    ensures
        value::member(entry, "isLocalInstance"@) == Some(value::Model::Bool(true)) && index
            < headers.len() && numbers(headers[index as int], "size"@, size) && (numbers(
            headers[index as int],
            "offset"@,
            start,
        ) || start == 0 && value::member(headers[index as int], "offset"@) is None) && start + size
            <= length ==> material_records::source_of(entry, headers, external, length) == Ok::<
            SourceModel,
            Fault,
        >(SourceModel::Local(start, start + size)),
        value::member(entry, "isLocalInstance"@) != Some(value::Model::Bool(true)) && index
            < external.len() && refers_to(external[index as int], path)
            ==> material_records::source_of(entry, headers, external, length) == Ok::<
            SourceModel,
            Fault,
        >(SourceModel::External(path)),
{
}

/// Whether a value refers to a path.
pub open spec fn refers_to(m: value::Model, path: Seq<char>) -> bool {
    &&& value::member(m, "DepotPath"@) matches Some(inner) && value::member(inner, "$value"@)
        == Some(said(path))
}

/// An appearance that is selected is the only one that is shown, and only its materials
/// are wanted; without a selection all are.
pub proof fn law_selection(
    looks: Seq<(Seq<char>, value::Model)>,
    name: Seq<char>,
    other: Seq<char>,
)
    requires
        crate::entries::rising(looks),
    ensures
        material_records::shown_appearances(looks, None) == looks,
        crate::entries::find(looks, name) is Some ==> crate::entries::find(
            material_records::shown_appearances(looks, Some(name)),
            name,
        ) == crate::entries::find(looks, name),
        other != name ==> crate::entries::find(
            material_records::shown_appearances(looks, Some(name)),
            other,
        ) is None,
{
    let none = Seq::<(Seq<char>, value::Model)>::empty();
    if let Some(found) = crate::entries::find(looks, name) {
        crate::entries::law_find_put(none, name, found);
        if other != name {
            crate::entries::law_find_other(none, name, found, other);
        }
    }
}

} // verus!
