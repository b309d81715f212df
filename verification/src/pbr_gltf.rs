//! Baked materials attached to a glTF document. Floats are handed in as their
//! bits.

use crate::entries;
use crate::mesh_gltf;
use crate::mesh_gltf::new_singles;
use crate::pbr;
use crate::pbr::{material_for_chunk, texts, Fault, PbrError};
use crate::text::same_text;
use crate::value;
use crate::value::{copy_text, find_entry, set_entry, Value};
use vstd::prelude::*;

verus! {

/// The bits of one.
pub const ONE: u32 = 0x3f80_0000;

/// The bits of infinity.
pub const INFINITY: u32 = 0x7f80_0000;

/// Whether the float with some bits is above that of others, which is not
/// below zero.
pub open spec fn above(bits: u32, limit: u32) -> bool {
    limit < bits <= INFINITY
}

/// A baked material. Textures are given by their addresses relative to the
/// document, floats by their bits.
#[derive(Debug)]
pub struct PbrMaterial {
    pub name: String,
    pub base_color_texture: Option<String>,
    pub base_color_factor: Vec<u32>,
    pub metallic_roughness_texture: Option<String>,
    pub metallic_factor: u32,
    pub roughness_factor: u32,
    pub normal_texture: Option<String>,
    pub emissive_texture: Option<String>,
    pub emissive_factor: Vec<u32>,
    pub emissive_strength: u32,
    pub alpha_mode: &'static str,
    pub alpha_cutoff: Option<u32>,
    pub transmission: u32,
    pub double_sided: bool,
}

/// The textures and images of a document.
pub ghost struct TexturesModel {
    pub textures: Seq<value::Model>,
    pub images: Seq<value::Model>,
}

/// The textures and images of a document.
#[derive(Debug)]
pub struct Textures {
    pub textures: Vec<Value>,
    pub images: Vec<Value>,
}

impl View for Textures {
    type V = TexturesModel;

    open spec fn view(&self) -> TexturesModel {
        TexturesModel {
            textures: value::models(self.textures@),
            images: value::models(self.images@),
        }
    }
}

/// A texture added.
pub open spec fn with_texture(t: TexturesModel, address: Seq<char>) -> TexturesModel {
    TexturesModel {
        textures: t.textures.push(
            value::Model::Object(
                entries::put(
                    entries::put(Seq::empty(), "sampler"@, value::integer(0)),
                    "source"@,
                    value::integer(t.images.len() as int),
                ),
            ),
        ),
        images: t.images.push(
            value::Model::Object(
                entries::put(Seq::empty(), "uri"@, value::Model::Text(address)),
            ),
        ),
    }
}

/// A reference to the next texture.
pub open spec fn reference(t: TexturesModel) -> value::Model {
    value::Model::Object(
        entries::put(Seq::empty(), "index"@, value::integer(t.textures.len() as int)),
    )
}

/// Entries and textures.
pub ghost struct PartModel {
    pub fields: Seq<(Seq<char>, value::Model)>,
    pub textures: TexturesModel,
}

/// A reference to a texture put under a key, if there is a texture.
pub open spec fn with_reference(
    p: PartModel,
    key: Seq<char>,
    address: Option<String>,
) -> PartModel {
    match address {
        None => p,
        Some(address) => PartModel {
            fields: entries::put(p.fields, key, reference(p.textures)),
            textures: with_texture(p.textures, address@),
        },
    }
}

/// The metallic and rough part of a material.
pub open spec fn surface(m: PbrMaterial, t: TexturesModel) -> PartModel {
    let plain = PartModel {
        fields: entries::put(
            entries::put(
                entries::put(
                    Seq::empty(),
                    "baseColorFactor"@,
                    mesh_gltf::singles(m.base_color_factor@),
                ),
                "metallicFactor"@,
                value::single(m.metallic_factor as nat),
            ),
            "roughnessFactor"@,
            value::single(m.roughness_factor as nat),
        ),
        textures: t,
    };
    with_reference(
        with_reference(plain, "baseColorTexture"@, m.base_color_texture),
        "metallicRoughnessTexture"@,
        m.metallic_roughness_texture,
    )
}

/// The extensions that a material needs.
pub open spec fn extensions(m: PbrMaterial) -> Seq<(Seq<char>, value::Model)> {
    let shining = if m.emissive_texture is Some && above(m.emissive_strength, ONE) {
        entries::put(
            Seq::empty(),
            "KHR_materials_emissive_strength"@,
            mesh_gltf::single_entry(
                "emissiveStrength"@,
                value::single(m.emissive_strength as nat),
            ),
        )
    } else {
        Seq::empty()
    };
    if above(m.transmission, 0) {
        entries::put(
            shining,
            "KHR_materials_transmission"@,
            mesh_gltf::single_entry("transmissionFactor"@, value::single(m.transmission as nat)),
        )
    } else {
        shining
    }
}

/// What a material says besides its surface.
pub open spec fn opened(m: PbrMaterial, surface: Seq<(Seq<char>, value::Model)>) -> Seq<
    (Seq<char>, value::Model),
> {
    let named = entries::put(
        entries::put(
            entries::put(
                entries::put(Seq::empty(), "name"@, value::Model::Text(m.name@)),
                "doubleSided"@,
                value::Model::Bool(m.double_sided),
            ),
            "alphaMode"@,
            value::Model::Text(m.alpha_mode@),
        ),
        "pbrMetallicRoughness"@,
        value::Model::Object(surface),
    );
    match m.alpha_cutoff {
        None => named,
        Some(bits) => entries::put(named, "alphaCutoff"@, value::single(bits as nat)),
    }
}

/// A material in the document, and the textures with its own.
pub open spec fn material_item(m: PbrMaterial, t: TexturesModel) -> (value::Model, TexturesModel) {
    let own = surface(m, t);
    let lit = with_reference(
        with_reference(
            PartModel { fields: opened(m, own.fields), textures: own.textures },
            "normalTexture"@,
            m.normal_texture,
        ),
        "emissiveTexture"@,
        m.emissive_texture,
    );
    let shining = if m.emissive_texture is Some {
        entries::put(lit.fields, "emissiveFactor"@, mesh_gltf::singles(m.emissive_factor@))
    } else {
        lit.fields
    };
    let more = extensions(m);
    (
        value::Model::Object(
            if more.len() == 0 {
                shining
            } else {
                entries::put(shining, "extensions"@, value::Model::Object(more))
            },
        ),
        lit.textures,
    )
}

/// The first `n` materials in the document, and their textures.
pub open spec fn material_items(list: Seq<PbrMaterial>, n: nat) -> (
    Seq<value::Model>,
    TexturesModel,
)
    decreases n,
{
    if n == 0 {
        (Seq::empty(), TexturesModel { textures: Seq::empty(), images: Seq::empty() })
    } else {
        let (before, t) = material_items(list, (n - 1) as nat);
        let (item, after) = material_item(list[n - 1], t);
        (before.push(item), after)
    }
}

fn add_reference(
    fields: &mut Vec<(String, Value)>,
    textures: &mut Textures,
    key: &str,
    address: &Option<String>,
)
    ensures
        (PartModel {
            fields: value::entry_models(final(fields)@),
            textures: final(textures)@,
        }) == with_reference(
            PartModel { fields: value::entry_models(old(fields)@), textures: old(textures)@ },
            key@,
            *address,
        ),
{
    if let Some(address) = address {
        proof {
            value::lemma_models(textures.textures@);
            value::lemma_models(textures.images@);
        }
        let mut link: Vec<(String, Value)> = Vec::new();
        set_entry(&mut link, "index", Value::integer(textures.textures.len() as i128));
        set_entry(fields, key, Value::Object(link));
        let mut texture: Vec<(String, Value)> = Vec::new();
        set_entry(&mut texture, "sampler", Value::integer(0));
        set_entry(&mut texture, "source", Value::integer(textures.images.len() as i128));
        let mut image: Vec<(String, Value)> = Vec::new();
        set_entry(&mut image, "uri", Value::text(address.as_str()));
        let first: Value = Value::Object(texture);
        let second: Value = Value::Object(image);
        proof {
            value::lemma_models_push(textures.textures@, first);
            value::lemma_models_push(textures.images@, second);
        }
        textures.textures.push(first);
        textures.images.push(second);
    }
}

fn new_surface(m: &PbrMaterial, textures: &mut Textures) -> (result: Vec<(String, Value)>)
    ensures
        (PartModel { fields: value::entry_models(result@), textures: final(textures)@ }) == surface(
            *m,
            old(textures)@,
        ),
{
    let mut fields: Vec<(String, Value)> = Vec::new();
    set_entry(&mut fields, "baseColorFactor", new_singles(&m.base_color_factor));
    set_entry(&mut fields, "metallicFactor", Value::single(m.metallic_factor));
    set_entry(&mut fields, "roughnessFactor", Value::single(m.roughness_factor));
    add_reference(&mut fields, textures, "baseColorTexture", &m.base_color_texture);
    add_reference(&mut fields, textures, "metallicRoughnessTexture", &m.metallic_roughness_texture);
    fields
}

fn is_above(bits: u32, limit: u32) -> (result: bool)
    ensures
        result == above(bits, limit),
{
    limit < bits && bits <= INFINITY
}

fn single_field(key: &str, bits: u32) -> (result: Value)
    ensures
        result@ == mesh_gltf::single_entry(key@, value::single(bits as nat)),
{
    let mut fields: Vec<(String, Value)> = Vec::new();
    set_entry(&mut fields, key, Value::single(bits));
    Value::Object(fields)
}

fn new_extensions(m: &PbrMaterial) -> (result: Vec<(String, Value)>)
    ensures
        value::entry_models(result@) == extensions(*m),
{
    let mut more: Vec<(String, Value)> = Vec::new();
    assert(value::entry_models(more@) =~= Seq::empty());
    if m.emissive_texture.is_some() && is_above(m.emissive_strength, ONE) {
        set_entry(
            &mut more,
            "KHR_materials_emissive_strength",
            single_field("emissiveStrength", m.emissive_strength),
        );
    }
    if is_above(m.transmission, 0) {
        set_entry(
            &mut more,
            "KHR_materials_transmission",
            single_field("transmissionFactor", m.transmission),
        );
    }
    more
}

fn new_opened(m: &PbrMaterial, surface: Vec<(String, Value)>) -> (result: Vec<(String, Value)>)
    ensures
        value::entry_models(result@) == opened(*m, value::entry_models(surface@)),
{
    let mut fields: Vec<(String, Value)> = Vec::new();
    set_entry(&mut fields, "name", Value::text(m.name.as_str()));
    set_entry(&mut fields, "doubleSided", Value::Bool(m.double_sided));
    set_entry(&mut fields, "alphaMode", Value::text(m.alpha_mode));
    set_entry(&mut fields, "pbrMetallicRoughness", Value::Object(surface));
    if let Some(bits) = m.alpha_cutoff {
        set_entry(&mut fields, "alphaCutoff", Value::single(bits));
    }
    fields
}

/// Writes a material, and adds its textures.
pub fn pbr_material_json(m: &PbrMaterial, textures: &mut Textures) -> (result: Value)
    ensures
        (result@, final(textures)@) == material_item(*m, old(textures)@),
{
    let surface: Vec<(String, Value)> = new_surface(m, textures);
    let mut fields: Vec<(String, Value)> = new_opened(m, surface);
    add_reference(&mut fields, textures, "normalTexture", &m.normal_texture);
    add_reference(&mut fields, textures, "emissiveTexture", &m.emissive_texture);
    if m.emissive_texture.is_some() {
        set_entry(&mut fields, "emissiveFactor", new_singles(&m.emissive_factor));
    }
    let more: Vec<(String, Value)> = new_extensions(m);
    proof {
        value::lemma_entry_models(more@);
    }
    if more.len() > 0 {
        set_entry(&mut fields, "extensions", Value::Object(more));
    }
    Value::Object(fields)
}

/// Writes all materials and their textures.
pub fn list_materials(list: &Vec<PbrMaterial>) -> (result: (Vec<Value>, Textures))
    ensures
        (value::models(result.0@), result.1@) == material_items(list@, list@.len()),
{
    let mut items: Vec<Value> = Vec::new();
    let mut textures: Textures = Textures { textures: Vec::new(), images: Vec::new() };
    assert(value::models(items@) =~= Seq::empty());
    assert(textures@.textures =~= Seq::empty());
    assert(textures@.images =~= Seq::empty());
    let mut i: usize = 0;
    while i < list.len()
        invariant
            i <= list@.len(),
            (value::models(items@), textures@) == material_items(list@, i as nat),
        decreases list@.len() - i,
    {
        let item: Value = pbr_material_json(&list[i], &mut textures);
        proof {
            value::lemma_models_push(items@, item);
        }
        items.push(item);
        i = i + 1;
    }
    (items, textures)
}

/// The last material with a name, among the first `n`.
pub open spec fn index_of(names: Seq<Seq<char>>, name: Seq<char>, n: nat) -> Option<nat>
    decreases n,
{
    if n == 0 {
        None
    } else if names[n - 1] == name {
        Some((n - 1) as nat)
    } else {
        index_of(names, name, (n - 1) as nat)
    }
}

/// The first `n` entries without those under a key.
pub open spec fn without(own: Seq<(Seq<char>, value::Model)>, key: Seq<char>, n: nat) -> Seq<
    (Seq<char>, value::Model),
>
    decreases n,
{
    if n == 0 {
        Seq::empty()
    } else if own[n - 1].0 == key {
        without(own, key, (n - 1) as nat)
    } else {
        without(own, key, (n - 1) as nat).push(own[n - 1])
    }
}

/// A primitive with a material, and without colours of its vertices.
pub open spec fn attached_primitive(primitive: value::Model, index: nat) -> Result<
    value::Model,
    Fault,
> {
    match primitive {
        value::Model::Object(own) => {
            let shown = entries::put(own, "material"@, value::integer(index as int));
            match entries::find(shown, "attributes"@) {
                Some(value::Model::Object(attributes)) => Ok(
                    value::Model::Object(
                        entries::put(
                            shown,
                            "attributes"@,
                            value::Model::Object(
                                without(attributes, "COLOR_0"@, attributes.len()),
                            ),
                        ),
                    ),
                ),
                _ => Ok(value::Model::Object(shown)),
            }
        },
        _ => Err(Fault::Malformed("GLB primitive is not an object"@)),
    }
}

/// The first `n` primitives with a material.
pub open spec fn attached_primitives(list: Seq<value::Model>, index: nat, n: nat) -> Result<
    Seq<value::Model>,
    Fault,
>
    decreases n,
{
    if n == 0 {
        Ok(Seq::empty())
    } else {
        match attached_primitives(list, index, (n - 1) as nat) {
            Err(f) => Err(f),
            Ok(before) => match attached_primitive(list[n - 1], index) {
                Err(f) => Err(f),
                Ok(item) => Ok(before.push(item)),
            },
        }
    }
}

/// A mesh with a material.
pub open spec fn attached_mesh(mesh: value::Model, index: nat) -> Result<value::Model, Fault> {
    match mesh {
        value::Model::Object(own) => match entries::find(own, "primitives"@) {
            Some(value::Model::Array(list)) => match attached_primitives(
                list,
                index,
                list.len(),
            ) {
                Err(f) => Err(f),
                Ok(items) => Ok(
                    value::Model::Object(
                        entries::put(own, "primitives"@, value::Model::Array(items)),
                    ),
                ),
            },
            _ => Err(Fault::Malformed("GLB mesh has no primitives"@)),
        },
        _ => Err(Fault::Malformed("GLB mesh has no primitives"@)),
    }
}

/// The first `n` meshes, each with the material that its place has in an
/// appearance.
pub open spec fn attached_meshes(
    list: Seq<value::Model>,
    appearance: Seq<Seq<char>>,
    materials: Seq<Seq<char>>,
    n: nat,
) -> Result<Seq<value::Model>, Fault>
    decreases n,
{
    if n == 0 {
        Ok(Seq::empty())
    } else {
        match attached_meshes(list, appearance, materials, (n - 1) as nat) {
            Err(f) => Err(f),
            Ok(before) => {
                let name = pbr::spread_material(appearance, (n - 1) as nat, list.len());
                match index_of(materials, name, materials.len()) {
                    None => Err(Fault::Missing("no baked material"@, name)),
                    Some(index) => match attached_mesh(list[n - 1], index) {
                        Err(f) => Err(f),
                        Ok(mesh) => Ok(before.push(mesh)),
                    },
                }
            },
        }
    }
}

/// The sampler of all textures.
pub open spec fn sampler() -> value::Model {
    value::Model::Object(
        entries::put(
            entries::put(
                entries::put(
                    entries::put(Seq::empty(), "magFilter"@, value::integer(9729)),
                    "minFilter"@,
                    value::integer(9987),
                ),
                "wrapS"@,
                value::integer(10497),
            ),
            "wrapT"@,
            value::integer(10497),
        ),
    )
}

/// A document with materials and their textures. `clear` says whether light
/// passes through any material.
pub open spec fn furnished(
    own: Seq<(Seq<char>, value::Model)>,
    items: Seq<value::Model>,
    t: TexturesModel,
    clear: bool,
) -> Seq<(Seq<char>, value::Model)> {
    let listed = entries::put(own, "materials"@, value::Model::Array(items));
    let textured = if t.textures.len() == 0 {
        listed
    } else {
        entries::put(
            entries::put(
                entries::put(listed, "textures"@, value::Model::Array(t.textures)),
                "images"@,
                value::Model::Array(t.images),
            ),
            "samplers"@,
            value::Model::Array(seq![sampler()]),
        )
    };
    if clear {
        entries::put(
            textured,
            "extensionsUsed"@,
            value::Model::Array(seq![value::Model::Text("KHR_materials_transmission"@)]),
        )
    } else {
        textured
    }
}

/// The names of materials.
pub open spec fn material_names(list: Seq<PbrMaterial>) -> Seq<Seq<char>> {
    list.map_values(|m: PbrMaterial| m.name@)
}

/// Whether light passes through one of the first `n` materials.
pub open spec fn any_clear(list: Seq<PbrMaterial>, n: nat) -> bool
    decreases n,
{
    n > 0 && (any_clear(list, (n - 1) as nat) || above(list[n - 1].transmission, 0))
}

/// A document with baked materials in place of its own.
pub open spec fn attached(
    document: value::Model,
    appearance: Seq<Seq<char>>,
    list: Seq<PbrMaterial>,
) -> Result<value::Model, Fault> {
    match document {
        value::Model::Object(own) => {
            let (items, t) = material_items(list, list.len());
            let root = furnished(own, items, t, any_clear(list, list.len()));
            match entries::find(root, "meshes"@) {
                Some(value::Model::Array(meshes)) => match attached_meshes(
                    meshes,
                    appearance,
                    material_names(list),
                    meshes.len(),
                ) {
                    Err(f) => Err(f),
                    Ok(done) => Ok(
                        value::Model::Object(
                            entries::put(root, "meshes"@, value::Model::Array(done)),
                        ),
                    ),
                },
                _ => Err(Fault::Malformed("GLB has no meshes"@)),
            }
        },
        _ => Err(Fault::Malformed("GLB root is not an object"@)),
    }
}

fn find_index(list: &Vec<PbrMaterial>, name: &str) -> (result: Option<usize>)
    ensures
        match index_of(material_names(list@), name@, list@.len()) {
            Some(at) => result matches Some(r) && r == at,
            None => result is None,
        },
{
    let ghost all = material_names(list@);
    let mut n: usize = list.len();
    while n > 0
        invariant
            n <= list@.len(),
            all == material_names(list@),
            index_of(all, name@, list@.len()) == index_of(all, name@, n as nat),
        decreases n,
    {
        assert(all[n - 1] == list@[n - 1].name@);
        if same_text(list[n - 1].name.as_str(), name) {
            return Some(n - 1);
        }
        n = n - 1;
    }
    None
}

fn copy_without(own: &Vec<(String, Value)>, key: &str) -> (result: Value)
    ensures
        result@ == value::Model::Object(
            without(value::entry_models(own@), key@, own@.len()),
        ),
{
    let ghost all = value::entry_models(own@);
    proof {
        value::lemma_entry_models(own@);
    }
    let mut out: Vec<(String, Value)> = Vec::new();
    assert(value::entry_models(out@) =~= Seq::empty());
    let mut i: usize = 0;
    while i < own.len()
        invariant
            i <= own@.len(),
            all == value::entry_models(own@),
            forall|k: int|
                0 <= k < own@.len() ==> #[trigger] all[k] == (
                    own@[k].0@,
                    value::model(own@[k].1),
                ),
            value::entry_models(out@) == without(all, key@, i as nat),
        decreases own@.len() - i,
    {
        assert(all[i as int] == (own@[i as int].0@, value::model(own@[i as int].1)));
        if !same_text(own[i].0.as_str(), key) {
            let entry: (String, Value) = (copy_text(own[i].0.as_str()), own[i].1.copy());
            proof {
                value::lemma_entry_models_push(out@, entry);
            }
            out.push(entry);
        }
        i = i + 1;
    }
    Value::Object(out)
}

fn copy_entries(own: &Vec<(String, Value)>) -> (result: Vec<(String, Value)>)
    ensures
        value::entry_models(result@) == value::entry_models(own@),
{
    let ghost all = value::entry_models(own@);
    proof {
        value::lemma_entry_models(own@);
    }
    let mut out: Vec<(String, Value)> = Vec::new();
    assert(value::entry_models(out@) =~= all.subrange(0, 0));
    let mut i: usize = 0;
    while i < own.len()
        invariant
            i <= own@.len(),
            all == value::entry_models(own@),
            all.len() == own@.len(),
            forall|k: int|
                0 <= k < own@.len() ==> #[trigger] all[k] == (
                    own@[k].0@,
                    value::model(own@[k].1),
                ),
            value::entry_models(out@) == all.subrange(0, i as int),
        decreases own@.len() - i,
    {
        let entry: (String, Value) = (copy_text(own[i].0.as_str()), own[i].1.copy());
        proof {
            value::lemma_entry_models_push(out@, entry);
            assert(all.subrange(0, i + 1) =~= all.subrange(0, i as int).push(all[i as int]));
        }
        out.push(entry);
        i = i + 1;
    }
    assert(all.subrange(0, i as int) =~= all);
    out
}

fn attach_primitive(primitive: &Value, index: usize) -> (result: Result<Value, PbrError>)
    ensures
        match attached_primitive(primitive@, index as nat) {
            Ok(item) => result matches Ok(r) && r@ == item,
            Err(f) => result matches Err(e) && e@ == f,
        },
{
    match primitive {
        Value::Object(own) => {
            let mut shown: Vec<(String, Value)> = copy_entries(own);
            set_entry(&mut shown, "material", Value::integer(index as i128));
            let mut cleaned: Option<Value> = None;
            if let Some(Value::Object(attributes)) = find_entry(&shown, "attributes") {
                proof {
                    value::lemma_entry_models(attributes@);
                }
                cleaned = Some(copy_without(attributes, "COLOR_0"));
            }
            if let Some(attributes) = cleaned {
                set_entry(&mut shown, "attributes", attributes);
            }
            Ok(Value::Object(shown))
        },
        _ => Err(PbrError::Malformed { reason: "GLB primitive is not an object" }),
    }
}

proof fn lemma_primitives_fail(list: Seq<value::Model>, index: nat, k: nat, n: nat)
    requires
        k <= n,
        attached_primitives(list, index, k) is Err,
    ensures
        attached_primitives(list, index, n) == attached_primitives(list, index, k),
    decreases n,
{
    if k < n {
        lemma_primitives_fail(list, index, k, (n - 1) as nat);
    }
}

#[verifier::loop_isolation(false)]
fn attach_primitives(list: &Vec<Value>, index: usize) -> (result: Result<Vec<Value>, PbrError>)
    ensures
        match attached_primitives(value::models(list@), index as nat, list@.len()) {
            Ok(items) => result matches Ok(r) && value::models(r@) == items,
            Err(f) => result matches Err(e) && e@ == f,
        },
{
    let ghost all = value::models(list@);
    proof {
        value::lemma_models(list@);
    }
    let mut out: Vec<Value> = Vec::new();
    assert(value::models(out@) =~= Seq::empty());
    let mut i: usize = 0;
    while i < list.len()
        invariant
            i <= list@.len(),
            attached_primitives(all, index as nat, i as nat) == Ok::<Seq<value::Model>, Fault>(
                value::models(out@),
            ),
        decreases list@.len() - i,
    {
        match attach_primitive(&list[i], index) {
            Ok(item) => {
                proof {
                    value::lemma_models_push(out@, item);
                }
                out.push(item);
            },
            Err(error) => {
                proof {
                    lemma_primitives_fail(all, index as nat, (i + 1) as nat, all.len());
                }
                return Err(error);
            },
        }
        i = i + 1;
    }
    Ok(out)
}

fn attach_mesh(mesh: &Value, index: usize) -> (result: Result<Value, PbrError>)
    ensures
        match attached_mesh(mesh@, index as nat) {
            Ok(item) => result matches Ok(r) && r@ == item,
            Err(f) => result matches Err(e) && e@ == f,
        },
{
    match mesh {
        Value::Object(own) => match find_entry(own, "primitives") {
            Some(Value::Array(list)) => {
                proof {
                    value::lemma_models(list@);
                }
                match attach_primitives(list, index) {
                    Ok(items) => {
                        let mut out: Vec<(String, Value)> = copy_entries(own);
                        set_entry(&mut out, "primitives", Value::Array(items));
                        Ok(Value::Object(out))
                    },
                    Err(error) => Err(error),
                }
            },
            _ => Err(PbrError::Malformed { reason: "GLB mesh has no primitives" }),
        },
        _ => Err(PbrError::Malformed { reason: "GLB mesh has no primitives" }),
    }
}

proof fn lemma_meshes_fail(
    list: Seq<value::Model>,
    appearance: Seq<Seq<char>>,
    materials: Seq<Seq<char>>,
    k: nat,
    n: nat,
)
    requires
        k <= n,
        attached_meshes(list, appearance, materials, k) is Err,
    ensures
        attached_meshes(list, appearance, materials, n) == attached_meshes(
            list,
            appearance,
            materials,
            k,
        ),
    decreases n,
{
    if k < n {
        lemma_meshes_fail(list, appearance, materials, k, (n - 1) as nat);
    }
}

#[verifier::loop_isolation(false)]
fn attach_meshes(list: &Vec<Value>, appearance: &Vec<String>, materials: &Vec<PbrMaterial>) -> (result:
    Result<Vec<Value>, PbrError>)
    ensures
        match attached_meshes(
            value::models(list@),
            texts(appearance@),
            material_names(materials@),
            list@.len(),
        ) {
            Ok(items) => result matches Ok(r) && value::models(r@) == items,
            Err(f) => result matches Err(e) && e@ == f,
        },
{
    let ghost all = value::models(list@);
    let ghost looks = texts(appearance@);
    let ghost names = material_names(materials@);
    proof {
        value::lemma_models(list@);
        assert(names.len() == materials@.len());
    }
    let mut out: Vec<Value> = Vec::new();
    assert(value::models(out@) =~= Seq::empty());
    let mut i: usize = 0;
    while i < list.len()
        invariant
            i <= list@.len(),
            attached_meshes(all, looks, names, i as nat) == Ok::<Seq<value::Model>, Fault>(
                value::models(out@),
            ),
        decreases list@.len() - i,
    {
        let name: String = material_for_chunk(appearance, i, list.len());
        let index: usize = match find_index(materials, name.as_str()) {
            Some(index) => index,
            None => {
                proof {
                    lemma_meshes_fail(all, looks, names, (i + 1) as nat, all.len());
                }
                return Err(PbrError::Missing { reason: "no baked material", name });
            },
        };
        match attach_mesh(&list[i], index) {
            Ok(item) => {
                proof {
                    value::lemma_models_push(out@, item);
                }
                out.push(item);
            },
            Err(error) => {
                proof {
                    lemma_meshes_fail(all, looks, names, (i + 1) as nat, all.len());
                }
                return Err(error);
            },
        }
        i = i + 1;
    }
    Ok(out)
}

fn new_sampler() -> (result: Value)
    ensures
        result@ == sampler(),
{
    let mut fields: Vec<(String, Value)> = Vec::new();
    set_entry(&mut fields, "magFilter", Value::integer(9729));
    set_entry(&mut fields, "minFilter", Value::integer(9987));
    set_entry(&mut fields, "wrapS", Value::integer(10497));
    set_entry(&mut fields, "wrapT", Value::integer(10497));
    Value::Object(fields)
}

fn furnish(root: &mut Vec<(String, Value)>, items: Vec<Value>, textures: Textures, clear: bool)
    ensures
        value::entry_models(final(root)@) == furnished(
            value::entry_models(old(root)@),
            value::models(items@),
            textures@,
            clear,
        ),
{
    proof {
        value::lemma_models(textures.textures@);
    }
    set_entry(root, "materials", Value::Array(items));
    if textures.textures.len() > 0 {
        set_entry(root, "textures", Value::Array(textures.textures));
        set_entry(root, "images", Value::Array(textures.images));
        set_entry(root, "samplers", mesh_gltf::only(new_sampler()));
    }
    if clear {
        set_entry(
            root,
            "extensionsUsed",
            mesh_gltf::only(Value::text("KHR_materials_transmission")),
        );
    }
}

fn find_clear(list: &Vec<PbrMaterial>) -> (result: bool)
    ensures
        result == any_clear(list@, list@.len()),
{
    let mut clear: bool = false;
    let mut i: usize = 0;
    while i < list.len()
        invariant
            i <= list@.len(),
            clear == any_clear(list@, i as nat),
        decreases list@.len() - i,
    {
        clear = clear || is_above(list[i].transmission, 0);
        i = i + 1;
    }
    clear
}

/// Puts baked materials into a document, in place of its own.
pub fn attach_materials(document: &Value, appearance: &Vec<String>, list: &Vec<PbrMaterial>) -> (result:
    Result<Value, PbrError>)
    ensures
        match attached(document@, texts(appearance@), list@) {
            Ok(done) => result matches Ok(r) && r@ == done,
            Err(f) => result matches Err(e) && e@ == f,
        },
{
    let own: &Vec<(String, Value)> = match document {
        Value::Object(own) => own,
        _ => return Err(PbrError::Malformed { reason: "GLB root is not an object" }),
    };
    let (items, textures): (Vec<Value>, Textures) = list_materials(list);
    let mut root: Vec<(String, Value)> = copy_entries(own);
    furnish(&mut root, items, textures, find_clear(list));
    let done: Vec<Value> = match find_entry(&root, "meshes") {
        Some(Value::Array(meshes)) => {
            proof {
                value::lemma_models(meshes@);
            }
            match attach_meshes(meshes, appearance, list) {
                Ok(done) => done,
                Err(error) => return Err(error),
            }
        },
        _ => return Err(PbrError::Malformed { reason: "GLB has no meshes" }),
    };
    set_entry(&mut root, "meshes", Value::Array(done));
    Ok(Value::Object(root))
}

} // verus!
