//! Geometry as a glTF document with its binary part. Floats are handed in as
//! their bits.

use crate::binary;
use crate::binary::{write_u16, write_u32};
use crate::entries;
use crate::glb;
use crate::mesh;
use crate::mesh::MeshError;
use crate::value;
use crate::value::{set_entry, Value};
use vstd::prelude::*;

verus! {

/// The component type of floats.
pub const GLTF_FLOAT: u32 = 5126;

/// The component type of unsigned 16-bit integers.
pub const GLTF_UNSIGNED_SHORT: u32 = 5123;

/// What was put together so far.
pub ghost struct BuilderModel {
    pub binary: Seq<u8>,
    pub views: Seq<value::Model>,
    pub accessors: Seq<value::Model>,
}

/// Puts the binary part together, with its views and accessors.
#[derive(Debug)]
pub struct GlbBuilder {
    pub binary: Vec<u8>,
    pub buffer_views: Vec<Value>,
    pub accessors: Vec<Value>,
}

impl View for GlbBuilder {
    type V = BuilderModel;

    open spec fn view(&self) -> BuilderModel {
        BuilderModel {
            binary: self.binary@,
            views: value::models(self.buffer_views@),
            accessors: value::models(self.accessors@),
        }
    }
}

/// Words of 32 bits as bytes.
pub open spec fn word_bytes(words: Seq<u32>) -> Seq<u8>
    decreases words.len(),
{
    if words.len() == 0 {
        Seq::empty()
    } else {
        word_bytes(words.drop_last()) + binary::le_bytes(words.last() as nat, 4)
    }
}

/// Words of 16 bits as bytes.
pub open spec fn short_bytes(words: Seq<u16>) -> Seq<u8>
    decreases words.len(),
{
    if words.len() == 0 {
        Seq::empty()
    } else {
        short_bytes(words.drop_last()) + binary::le_bytes(words.last() as nat, 2)
    }
}

/// A view of a part of the binary.
pub open spec fn view_of(start: nat, length: nat) -> value::Model {
    value::Model::Object(
        entries::put(
            entries::put(
                entries::put(Seq::empty(), "buffer"@, value::integer(0)),
                "byteOffset"@,
                value::integer(start as int),
            ),
            "byteLength"@,
            value::integer(length as int),
        ),
    )
}

/// Bits of floats as numbers.
pub open spec fn singles(bits: Seq<u32>) -> value::Model {
    value::Model::Array(Seq::new(bits.len(), |i: int| value::single(bits[i] as nat)))
}

/// An accessor, with its bounds if they are known.
pub open spec fn accessor(
    view: nat,
    component: u32,
    count: nat,
    kind: Seq<char>,
    bounds: Option<(Seq<u32>, Seq<u32>)>,
) -> value::Model {
    let plain = entries::put(
        entries::put(
            entries::put(
                entries::put(Seq::empty(), "bufferView"@, value::integer(view as int)),
                "componentType"@,
                value::integer(component as int),
            ),
            "count"@,
            value::integer(count as int),
        ),
        "type"@,
        value::Model::Text(kind),
    );
    value::Model::Object(
        match bounds {
            None => plain,
            Some((minimum, maximum)) => entries::put(
                entries::put(plain, "min"@, singles(minimum)),
                "max"@,
                singles(maximum),
            ),
        },
    )
}

/// Bytes put behind those that are there, with a view and an accessor.
pub open spec fn pushed(
    b: BuilderModel,
    bytes: Seq<u8>,
    component: u32,
    count: nat,
    kind: Seq<char>,
    bounds: Option<(Seq<u32>, Seq<u32>)>,
) -> BuilderModel {
    let start = glb::padded(b.binary, 0);
    BuilderModel {
        binary: start + bytes,
        views: b.views.push(view_of(start.len(), bytes.len())),
        accessors: b.accessors.push(accessor(b.views.len(), component, count, kind, bounds)),
    }
}

/// Vectors of `width` floats put behind what is there.
pub open spec fn pushed_floats(
    b: BuilderModel,
    bits: Seq<u32>,
    width: nat,
    kind: Seq<char>,
    bounds: Option<(Seq<u32>, Seq<u32>)>,
) -> BuilderModel {
    pushed(b, word_bytes(bits), GLTF_FLOAT, bits.len() / width, kind, bounds)
}

fn new_view(start: usize, length: usize) -> (result: Value)
    ensures
        result@ == view_of(start as nat, length as nat),
{
    let mut fields: Vec<(String, Value)> = Vec::new();
    set_entry(&mut fields, "buffer", Value::integer(0));
    set_entry(&mut fields, "byteOffset", Value::integer(start as i128));
    set_entry(&mut fields, "byteLength", Value::integer(length as i128));
    Value::Object(fields)
}

/// Makes numbers of the bits of floats.
pub fn new_singles(bits: &Vec<u32>) -> (result: Value)
    ensures
        result@ == singles(bits@),
{
    let ghost wanted = Seq::new(bits@.len(), |i: int| value::single(bits@[i] as nat));
    let mut items: Vec<Value> = Vec::new();
    let mut i: usize = 0;
    assert(value::models(items@) =~= wanted.subrange(0, 0));
    while i < bits.len()
        invariant
            i <= bits@.len(),
            wanted == Seq::new(bits@.len(), |i: int| value::single(bits@[i] as nat)),
            value::models(items@) == wanted.subrange(0, i as int),
        decreases bits@.len() - i,
    {
        let item: Value = Value::single(bits[i]);
        proof {
            value::lemma_models_push(items@, item);
            assert(wanted.subrange(0, i + 1) =~= wanted.subrange(0, i as int).push(
                wanted[i as int],
            ));
        }
        items.push(item);
        i = i + 1;
    }
    assert(wanted.subrange(0, i as int) =~= wanted);
    Value::Array(items)
}

/// Bounds, if they are known.
pub open spec fn bounds_of(bounds: Option<(&Vec<u32>, &Vec<u32>)>) -> Option<
    (Seq<u32>, Seq<u32>),
> {
    match bounds {
        None => None,
        Some((minimum, maximum)) => Some((minimum@, maximum@)),
    }
}

fn new_accessor(
    view: usize,
    component: u32,
    count: usize,
    kind: &str,
    bounds: Option<(&Vec<u32>, &Vec<u32>)>,
) -> (result: Value)
    ensures
        result@ == accessor(view as nat, component, count as nat, kind@, bounds_of(bounds)),
{
    let mut fields: Vec<(String, Value)> = Vec::new();
    set_entry(&mut fields, "bufferView", Value::integer(view as i128));
    set_entry(&mut fields, "componentType", Value::integer(component as i128));
    set_entry(&mut fields, "count", Value::integer(count as i128));
    set_entry(&mut fields, "type", Value::text(kind));
    if let Some((minimum, maximum)) = bounds {
        set_entry(&mut fields, "min", new_singles(minimum));
        set_entry(&mut fields, "max", new_singles(maximum));
    }
    Value::Object(fields)
}

proof fn lemma_word_bytes(words: Seq<u32>)
    ensures
        word_bytes(words).len() == 4 * words.len(),
    decreases words.len(),
{
    if words.len() > 0 {
        lemma_word_bytes(words.drop_last());
        binary::lemma_le_bytes_len(words.last() as nat, 4);
    }
}

impl GlbBuilder {
    /// Starts with nothing.
    pub fn new() -> (result: GlbBuilder)
        ensures
            result@ == (BuilderModel {
                binary: Seq::empty(),
                views: Seq::empty(),
                accessors: Seq::empty(),
            }),
    {
        let builder: GlbBuilder = GlbBuilder {
            binary: Vec::new(),
            buffer_views: Vec::new(),
            accessors: Vec::new(),
        };
        assert(builder@.views =~= Seq::empty());
        assert(builder@.accessors =~= Seq::empty());
        builder
    }

    /// Fills the binary up to a multiple of four bytes.
    pub fn align_binary(&mut self)
        ensures
            final(self)@ == (BuilderModel {
                binary: glb::padded(old(self)@.binary, 0),
                ..old(self)@
            }),
    {
        let ghost before = self@.binary;
        let extra: usize = (4 - self.binary.len() % 4) % 4;
        let mut i: usize = 0;
        while i < extra
            invariant
                i <= extra,
                self.binary@ == before + crate::sequence::repeated(0, i as nat),
                self.buffer_views == old(self).buffer_views,
                self.accessors == old(self).accessors,
            decreases extra - i,
        {
            self.binary.push(0);
            assert(self.binary@ =~= before + crate::sequence::repeated(0, (i + 1) as nat));
            i = i + 1;
        }
        assert(self.binary@ =~= glb::padded(before, 0));
    }

    fn finish(
        &mut self,
        start: usize,
        component: u32,
        count: usize,
        kind: &str,
        bounds: Option<(&Vec<u32>, &Vec<u32>)>,
    ) -> (result: usize)
        requires
            start <= old(self).binary@.len(),
        ensures
            final(self)@ == (BuilderModel {
                binary: old(self)@.binary,
                views: old(self)@.views.push(
                    view_of(start as nat, (old(self)@.binary.len() - start) as nat),
                ),
                accessors: old(self)@.accessors.push(
                    accessor(
                        old(self)@.views.len(),
                        component,
                        count as nat,
                        kind@,
                        bounds_of(bounds),
                    ),
                ),
            }),
            result == old(self)@.accessors.len(),
    {
        proof {
            value::lemma_models(self.buffer_views@);
            value::lemma_models(self.accessors@);
        }
        let view: Value = new_view(start, self.binary.len() - start);
        let item: Value = new_accessor(self.buffer_views.len(), component, count, kind, bounds);
        proof {
            value::lemma_models_push(self.buffer_views@, view);
            value::lemma_models_push(self.accessors@, item);
        }
        let index: usize = self.accessors.len();
        self.buffer_views.push(view);
        self.accessors.push(item);
        index
    }

    /// Adds vectors of `width` floats, given as bits, and gives the index of
    /// their accessor.
    pub fn push_f32_vectors(
        &mut self,
        bits: &Vec<u32>,
        width: usize,
        kind: &str,
        bounds: Option<(&Vec<u32>, &Vec<u32>)>,
    ) -> (result: usize)
        requires
            width > 0,
        ensures
            final(self)@ == pushed_floats(
                old(self)@,
                bits@,
                width as nat,
                kind@,
                bounds_of(bounds),
            ),
            result == old(self)@.accessors.len(),
    {
        self.align_binary();
        let ghost aligned = self@;
        let start: usize = self.binary.len();
        let mut i: usize = 0;
        assert(self.binary@ =~= aligned.binary + word_bytes(bits@.subrange(0, 0)));
        while i < bits.len()
            invariant
                i <= bits@.len(),
                self.binary@ == aligned.binary + word_bytes(bits@.subrange(0, i as int)),
                self@.views == aligned.views,
                self@.accessors == aligned.accessors,
            decreases bits@.len() - i,
        {
            write_u32(&mut self.binary, bits[i]);
            proof {
                let next = bits@.subrange(0, i + 1);
                assert(next.drop_last() =~= bits@.subrange(0, i as int));
                assert(self.binary@ =~= aligned.binary + word_bytes(next));
            }
            i = i + 1;
        }
        assert(bits@.subrange(0, i as int) =~= bits@);
        self.finish(start, GLTF_FLOAT, bits.len() / width, kind, bounds)
    }

    /// Adds indices, and gives the index of their accessor.
    pub fn push_indices(&mut self, indices: &Vec<u16>) -> (result: usize)
        ensures
            final(self)@ == pushed(
                old(self)@,
                short_bytes(indices@),
                GLTF_UNSIGNED_SHORT,
                indices@.len(),
                "SCALAR"@,
                None,
            ),
            result == old(self)@.accessors.len(),
    {
        self.align_binary();
        let ghost aligned = self@;
        let start: usize = self.binary.len();
        let mut i: usize = 0;
        assert(self.binary@ =~= aligned.binary + short_bytes(indices@.subrange(0, 0)));
        while i < indices.len()
            invariant
                i <= indices@.len(),
                self.binary@ == aligned.binary + short_bytes(indices@.subrange(0, i as int)),
                self@.views == aligned.views,
                self@.accessors == aligned.accessors,
            decreases indices@.len() - i,
        {
            write_u16(&mut self.binary, indices[i]);
            proof {
                let next = indices@.subrange(0, i + 1);
                assert(next.drop_last() =~= indices@.subrange(0, i as int));
                assert(self.binary@ =~= aligned.binary + short_bytes(next));
            }
            i = i + 1;
        }
        assert(indices@.subrange(0, i as int) =~= indices@);
        self.finish(start, GLTF_UNSIGNED_SHORT, indices.len(), "SCALAR", None)
    }
}

/// The geometry of a mesh, its vectors flattened into the bits of floats.
#[derive(Debug)]
pub struct GltfMesh {
    pub name: String,
    pub positions: Vec<u32>,
    pub minimum: Vec<u32>,
    pub maximum: Vec<u32>,
    pub normals: Vec<u32>,
    pub tangents: Vec<u32>,
    pub colors: Vec<u32>,
    pub tex_coords: Vec<u32>,
    pub tex_coords_1: Vec<u32>,
    pub indices: Vec<u16>,
    pub material_names: Vec<String>,
}

/// An attribute added, unless it has no vectors.
pub open spec fn with_attribute(
    state: (BuilderModel, Seq<(Seq<char>, value::Model)>),
    name: Seq<char>,
    bits: Seq<u32>,
    width: nat,
    kind: Seq<char>,
) -> (BuilderModel, Seq<(Seq<char>, value::Model)>) {
    if bits.len() == 0 {
        state
    } else {
        (
            pushed_floats(state.0, bits, width, kind, None),
            entries::put(state.1, name, value::integer(state.0.accessors.len() as int)),
        )
    }
}

/// The attributes of a mesh added.
pub open spec fn with_attributes(b: BuilderModel, m: GltfMesh) -> (
    BuilderModel,
    Seq<(Seq<char>, value::Model)>,
) {
    let first = (
        pushed_floats(b, m.positions@, 3, "VEC3"@, Some((m.minimum@, m.maximum@))),
        entries::put(Seq::empty(), "POSITION"@, value::integer(b.accessors.len() as int)),
    );
    with_attribute(
        with_attribute(
            with_attribute(
                with_attribute(
                    with_attribute(first, "NORMAL"@, m.normals@, 3, "VEC3"@),
                    "TANGENT"@,
                    m.tangents@,
                    4,
                    "VEC4"@,
                ),
                "COLOR_0"@,
                m.colors@,
                4,
                "VEC4"@,
            ),
            "TEXCOORD_0"@,
            m.tex_coords@,
            2,
            "VEC2"@,
        ),
        "TEXCOORD_1"@,
        m.tex_coords_1@,
        2,
        "VEC2"@,
    )
}

/// Texts as values.
pub open spec fn text_values(list: Seq<Seq<char>>) -> value::Model {
    value::Model::Array(list.map_values(|text: Seq<char>| value::Model::Text(text)))
}

/// A mesh in the document.
pub open spec fn mesh_item(
    name: Seq<char>,
    materials: Seq<Seq<char>>,
    attributes: Seq<(Seq<char>, value::Model)>,
    indices: nat,
) -> value::Model {
    let primitive = entries::put(
        entries::put(
            entries::put(Seq::empty(), "attributes"@, value::Model::Object(attributes)),
            "indices"@,
            value::integer(indices as int),
        ),
        "material"@,
        value::integer(0),
    );
    value::Model::Object(
        entries::put(
            entries::put(
                entries::put(Seq::empty(), "name"@, value::Model::Text(name)),
                "extras"@,
                value::Model::Object(
                    entries::put(Seq::empty(), "materialNames"@, text_values(materials)),
                ),
            ),
            "primitives"@,
            value::Model::Array(seq![value::Model::Object(primitive)]),
        ),
    )
}

/// A node in the document.
pub open spec fn node_item(name: Seq<char>, index: nat) -> value::Model {
    value::Model::Object(
        entries::put(
            entries::put(Seq::empty(), "name"@, value::Model::Text(name)),
            "mesh"@,
            value::integer(index as int),
        ),
    )
}

/// A mesh added to the binary, the meshes and the nodes.
#[verifier::opaque]
pub open spec fn with_mesh(
    state: (BuilderModel, Seq<value::Model>, Seq<value::Model>),
    m: GltfMesh,
    index: nat,
) -> (BuilderModel, Seq<value::Model>, Seq<value::Model>) {
    let (after, attributes) = with_attributes(state.0, m);
    (
        pushed(
            after,
            short_bytes(m.indices@),
            GLTF_UNSIGNED_SHORT,
            m.indices@.len(),
            "SCALAR"@,
            None,
        ),
        state.1.push(
            mesh_item(m.name@, mesh::texts(m.material_names@), attributes, after.accessors.len()),
        ),
        state.2.push(node_item(m.name@, index)),
    )
}

/// What the first `n` meshes give: the binary, the meshes and the nodes.
pub open spec fn assembled(list: Seq<GltfMesh>, n: nat) -> (
    BuilderModel,
    Seq<value::Model>,
    Seq<value::Model>,
)
    decreases n,
{
    if n == 0 {
        (
            BuilderModel { binary: Seq::empty(), views: Seq::empty(), accessors: Seq::empty() },
            Seq::empty(),
            Seq::empty(),
        )
    } else {
        with_mesh(assembled(list, (n - 1) as nat), list[n - 1], (n - 1) as nat)
    }
}

/// Numbers from zero up.
pub open spec fn count_up(n: nat) -> Seq<value::Model> {
    Seq::new(n, |i: int| value::integer(i))
}

/// The scene that shows all nodes.
pub open spec fn scene_item(n: nat) -> value::Model {
    value::Model::Object(
        entries::put(
            entries::put(Seq::empty(), "name"@, value::Model::Text("Scene"@)),
            "nodes"@,
            value::Model::Array(count_up(n)),
        ),
    )
}

/// The material that stands in for all.
pub open spec fn default_material() -> value::Model {
    value::Model::Object(
        entries::put(
            entries::put(
                entries::put(Seq::empty(), "name"@, value::Model::Text("Default"@)),
                "doubleSided"@,
                value::Model::Bool(true),
            ),
            "pbrMetallicRoughness"@,
            value::Model::Object(Seq::empty()),
        ),
    )
}

/// An object with one entry.
pub open spec fn single_entry(key: Seq<char>, content: value::Model) -> value::Model {
    value::Model::Object(entries::put(Seq::empty(), key, content))
}

/// The document of all meshes.
pub open spec fn document(list: Seq<GltfMesh>) -> value::Model {
    let (b, meshes, nodes) = assembled(list, list.len());
    document_of(glb::padded(b.binary, 0).len(), b.views, b.accessors, meshes, nodes)
}

/// A document of parts.
#[verifier::opaque]
pub open spec fn document_of(
    length: nat,
    views: Seq<value::Model>,
    accessors: Seq<value::Model>,
    meshes: Seq<value::Model>,
    nodes: Seq<value::Model>,
) -> value::Model {
    let asset = entries::put(
        entries::put(Seq::empty(), "generator"@, value::Model::Text("ghostline-red 0.1.0"@)),
        "version"@,
        value::Model::Text("2.0"@),
    );
    let opened = entries::put(
        entries::put(
            entries::put(
                entries::put(
                    entries::put(Seq::empty(), "asset"@, value::Model::Object(asset)),
                    "extras"@,
                    single_entry("ExperimentalMergedMeshes"@, value::Model::Bool(false)),
                ),
                "scene"@,
                value::integer(0),
            ),
            "scenes"@,
            value::Model::Array(seq![scene_item(nodes.len())]),
        ),
        "nodes"@,
        value::Model::Array(nodes),
    );
    value::Model::Object(
        entries::put(
            entries::put(
                entries::put(
                    entries::put(
                        entries::put(opened, "meshes"@, value::Model::Array(meshes)),
                        "materials"@,
                        value::Model::Array(seq![default_material()]),
                    ),
                    "buffers"@,
                    value::Model::Array(
                        seq![
                            single_entry(
                                "byteLength"@,
                                value::integer(length as int),
                            ),
                        ],
                    ),
                ),
                "bufferViews"@,
                value::Model::Array(views),
            ),
            "accessors"@,
            value::Model::Array(accessors),
        ),
    )
}

fn add_attribute(
    builder: &mut GlbBuilder,
    attributes: &mut Vec<(String, Value)>,
    name: &str,
    bits: &Vec<u32>,
    width: usize,
    kind: &str,
)
    requires
        width > 0,
    ensures
        (final(builder)@, value::entry_models(final(attributes)@)) == with_attribute(
            (old(builder)@, value::entry_models(old(attributes)@)),
            name@,
            bits@,
            width as nat,
            kind@,
        ),
{
    if bits.len() > 0 {
        let index: usize = builder.push_f32_vectors(bits, width, kind, None);
        set_entry(attributes, name, Value::integer(index as i128));
    }
}

fn add_attributes(builder: &mut GlbBuilder, m: &GltfMesh) -> (result: Vec<(String, Value)>)
    ensures
        (final(builder)@, value::entry_models(result@)) == with_attributes(old(builder)@, *m),
{
    let mut attributes: Vec<(String, Value)> = Vec::new();
    assert(value::entry_models(attributes@) =~= Seq::empty());
    let index: usize = builder.push_f32_vectors(
        &m.positions,
        3,
        "VEC3",
        Some((&m.minimum, &m.maximum)),
    );
    set_entry(&mut attributes, "POSITION", Value::integer(index as i128));
    add_attribute(builder, &mut attributes, "NORMAL", &m.normals, 3, "VEC3");
    add_attribute(builder, &mut attributes, "TANGENT", &m.tangents, 4, "VEC4");
    add_attribute(builder, &mut attributes, "COLOR_0", &m.colors, 4, "VEC4");
    add_attribute(builder, &mut attributes, "TEXCOORD_0", &m.tex_coords, 2, "VEC2");
    add_attribute(builder, &mut attributes, "TEXCOORD_1", &m.tex_coords_1, 2, "VEC2");
    attributes
}

/// Makes values of texts.
pub fn new_text_values(list: &Vec<String>) -> (result: Value)
    ensures
        result@ == text_values(mesh::texts(list@)),
{
    let ghost wanted = mesh::texts(list@).map_values(|text: Seq<char>| value::Model::Text(text));
    let mut items: Vec<Value> = Vec::new();
    let mut i: usize = 0;
    assert(value::models(items@) =~= wanted.subrange(0, 0));
    while i < list.len()
        invariant
            i <= list@.len(),
            wanted == mesh::texts(list@).map_values(|text: Seq<char>| value::Model::Text(text)),
            value::models(items@) == wanted.subrange(0, i as int),
        decreases list@.len() - i,
    {
        let item: Value = Value::text(list[i].as_str());
        proof {
            value::lemma_models_push(items@, item);
            assert(mesh::texts(list@)[i as int] == list@[i as int]@);
            assert(wanted.subrange(0, i + 1) =~= wanted.subrange(0, i as int).push(
                wanted[i as int],
            ));
        }
        items.push(item);
        i = i + 1;
    }
    assert(wanted.subrange(0, i as int) =~= wanted);
    Value::Array(items)
}

/// Makes an array of one item.
pub fn only(item: Value) -> (result: Value)
    ensures
        result@ == value::Model::Array(seq![item@]),
{
    let mut items: Vec<Value> = Vec::new();
    proof {
        value::lemma_models_push(items@, item);
        assert(value::models(items@) =~= Seq::empty());
        assert(Seq::<value::Model>::empty().push(item@) =~= seq![item@]);
    }
    items.push(item);
    Value::Array(items)
}

fn new_single_entry(key: &str, content: Value) -> (result: Value)
    ensures
        result@ == single_entry(key@, content@),
{
    let mut fields: Vec<(String, Value)> = Vec::new();
    set_entry(&mut fields, key, content);
    Value::Object(fields)
}

fn new_mesh_item(
    name: &str,
    materials: &Vec<String>,
    attributes: Vec<(String, Value)>,
    indices: usize,
) -> (result: Value)
    ensures
        result@ == mesh_item(
            name@,
            mesh::texts(materials@),
            value::entry_models(attributes@),
            indices as nat,
        ),
{
    let mut primitive: Vec<(String, Value)> = Vec::new();
    set_entry(&mut primitive, "attributes", Value::Object(attributes));
    set_entry(&mut primitive, "indices", Value::integer(indices as i128));
    set_entry(&mut primitive, "material", Value::integer(0));
    let mut fields: Vec<(String, Value)> = Vec::new();
    set_entry(&mut fields, "name", Value::text(name));
    set_entry(
        &mut fields,
        "extras",
        new_single_entry("materialNames", new_text_values(materials)),
    );
    set_entry(&mut fields, "primitives", only(Value::Object(primitive)));
    Value::Object(fields)
}

fn new_node_item(name: &str, index: usize) -> (result: Value)
    ensures
        result@ == node_item(name@, index as nat),
{
    let mut fields: Vec<(String, Value)> = Vec::new();
    set_entry(&mut fields, "name", Value::text(name));
    set_entry(&mut fields, "mesh", Value::integer(index as i128));
    Value::Object(fields)
}

fn new_scene_item(n: usize) -> (result: Value)
    ensures
        result@ == scene_item(n as nat),
{
    let mut items: Vec<Value> = Vec::new();
    let mut i: usize = 0;
    assert(value::models(items@) =~= count_up(0));
    while i < n
        invariant
            i <= n,
            value::models(items@) == count_up(i as nat),
        decreases n - i,
    {
        let item: Value = Value::integer(i as i128);
        proof {
            value::lemma_models_push(items@, item);
            assert(count_up((i + 1) as nat) =~= count_up(i as nat).push(value::integer(i as int)));
        }
        items.push(item);
        i = i + 1;
    }
    let mut fields: Vec<(String, Value)> = Vec::new();
    set_entry(&mut fields, "name", Value::text("Scene"));
    set_entry(&mut fields, "nodes", Value::Array(items));
    Value::Object(fields)
}

fn new_default_material() -> (result: Value)
    ensures
        result@ == default_material(),
{
    let nothing: Vec<(String, Value)> = Vec::new();
    assert(value::entry_models(nothing@) =~= Seq::empty());
    let mut fields: Vec<(String, Value)> = Vec::new();
    set_entry(&mut fields, "name", Value::text("Default"));
    set_entry(&mut fields, "doubleSided", Value::Bool(true));
    set_entry(&mut fields, "pbrMetallicRoughness", Value::Object(nothing));
    Value::Object(fields)
}

fn new_document(builder: GlbBuilder, meshes: Vec<Value>, nodes: Vec<Value>) -> (result: Value)
    ensures
        result@ == document_of(
            builder.binary@.len(),
            builder@.views,
            builder@.accessors,
            value::models(meshes@),
            value::models(nodes@),
        ),
{
    proof {
        reveal(document_of);
        value::lemma_models(nodes@);
    }
    let mut asset: Vec<(String, Value)> = Vec::new();
    set_entry(&mut asset, "generator", Value::text("ghostline-red 0.1.0"));
    set_entry(&mut asset, "version", Value::text("2.0"));
    let mut fields: Vec<(String, Value)> = Vec::new();
    set_entry(&mut fields, "asset", Value::Object(asset));
    set_entry(
        &mut fields,
        "extras",
        new_single_entry("ExperimentalMergedMeshes", Value::Bool(false)),
    );
    set_entry(&mut fields, "scene", Value::integer(0));
    set_entry(&mut fields, "scenes", only(new_scene_item(nodes.len())));
    set_entry(&mut fields, "nodes", Value::Array(nodes));
    set_entry(&mut fields, "meshes", Value::Array(meshes));
    set_entry(&mut fields, "materials", only(new_default_material()));
    set_entry(
        &mut fields,
        "buffers",
        only(new_single_entry("byteLength", Value::integer(builder.binary.len() as i128))),
    );
    set_entry(&mut fields, "bufferViews", Value::Array(builder.buffer_views));
    set_entry(&mut fields, "accessors", Value::Array(builder.accessors));
    Value::Object(fields)
}

fn add_mesh(
    builder: &mut GlbBuilder,
    meshes: &mut Vec<Value>,
    nodes: &mut Vec<Value>,
    m: &GltfMesh,
    index: usize,
)
    ensures
        (final(builder)@, value::models(final(meshes)@), value::models(final(nodes)@))
            == with_mesh(
            (old(builder)@, value::models(old(meshes)@), value::models(old(nodes)@)),
            *m,
            index as nat,
        ),
{
    proof {
        reveal(with_mesh);
    }
    let attributes: Vec<(String, Value)> = add_attributes(builder, m);
    let indices: usize = builder.push_indices(&m.indices);
    let item: Value = new_mesh_item(m.name.as_str(), &m.material_names, attributes, indices);
    let node: Value = new_node_item(m.name.as_str(), index);
    proof {
        value::lemma_models_push(meshes@, item);
        value::lemma_models_push(nodes@, node);
    }
    meshes.push(item);
    nodes.push(node);
}

/// Builds the document of meshes and its binary part.
#[verifier::loop_isolation(false)]
pub fn build_glb(list: &Vec<GltfMesh>) -> (result: Result<(Value, Vec<u8>), MeshError>)
    ensures
        if exists|i: int| 0 <= i < list@.len() && (#[trigger] list@[i]).positions@.len() == 0 {
            result matches Err(e) && e@ == mesh::Fault::Reason("render chunk has no positions"@)
        } else {
            result matches Ok(r) && r.0@ == document(list@) && r.1@ == glb::padded(
                assembled(list@, list@.len()).0.binary,
                0,
            )
        },
{
    let mut builder: GlbBuilder = GlbBuilder::new();
    let mut meshes: Vec<Value> = Vec::new();
    let mut nodes: Vec<Value> = Vec::new();
    assert(value::models(meshes@) =~= Seq::empty());
    assert(value::models(nodes@) =~= Seq::empty());
    let mut i: usize = 0;
    while i < list.len()
        invariant
            i <= list@.len(),
            forall|k: int| 0 <= k < i ==> (#[trigger] list@[k]).positions@.len() > 0,
            assembled(list@, i as nat) == (
                builder@,
                value::models(meshes@),
                value::models(nodes@),
            ),
        decreases list@.len() - i,
    {
        let m: &GltfMesh = &list[i];
        if m.positions.len() == 0 {
            return Err(MeshError::Reason { reason: "render chunk has no positions" });
        }
        add_mesh(&mut builder, &mut meshes, &mut nodes, m, i);
        i = i + 1;
    }
    builder.align_binary();
    let bytes: Vec<u8> = crate::sequence::to_vec(builder.binary.as_slice());
    Ok((new_document(builder, meshes, nodes), bytes))
}

} // verus!
