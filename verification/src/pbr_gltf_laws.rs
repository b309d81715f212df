//! The textures of an exported material lead to its images.

use crate::codec_leaf_laws::whole;
use crate::entries;
use crate::mesh_gltf;
use crate::object_laws::said;
use crate::pbr_gltf;
use crate::pbr_gltf::{PartModel, PbrMaterial, TexturesModel};
use crate::value;
use vstd::prelude::*;

verus! {

/// Whether a texture leads to the image at an address.
pub open spec fn shows(t: TexturesModel, index: nat, address: Seq<char>) -> bool {
    &&& index < t.textures.len()
    &&& value::member(t.textures[index as int], "sampler"@) == Some(whole(0))
    &&& exists|image: nat|
        #![trigger t.images[image as int]]
        image < t.images.len() && value::member(t.textures[index as int], "source"@) == Some(
            whole(image as int),
        ) && value::member(t.images[image as int], "uri"@) == Some(said(address))
}

/// Whether the texture under a key leads to the image at an address, or is left out where
/// there is none.
pub open spec fn has_texture(
    fields: Seq<(Seq<char>, value::Model)>,
    t: TexturesModel,
    key: Seq<char>,
    address: Option<String>,
) -> bool {
    match address {
        None => entries::find(fields, key) is None,
        Some(address) => exists|index: nat| #[trigger]
            shows(t, index, address@) && names_texture(fields, key, index),
    }
}

/// Whether the value under a key names a texture.
pub open spec fn names_texture(
    fields: Seq<(Seq<char>, value::Model)>,
    key: Seq<char>,
    index: nat,
) -> bool {
    match entries::find(fields, key) {
        Some(m) => value::member(m, "index"@) == Some(whole(index as int)),
        None => false,
    }
}

spec fn grows(a: TexturesModel, b: TexturesModel) -> bool {
    &&& a.textures.len() <= b.textures.len()
    &&& forall|i: int| 0 <= i < a.textures.len() ==> #[trigger] b.textures[i] == a.textures[i]
    &&& a.images.len() <= b.images.len()
    &&& forall|i: int| 0 <= i < a.images.len() ==> #[trigger] b.images[i] == a.images[i]
}

proof fn lemma_kept(
    f: Seq<(Seq<char>, value::Model)>,
    a: TexturesModel,
    g: Seq<(Seq<char>, value::Model)>,
    b: TexturesModel,
    key: Seq<char>,
    address: Option<String>,
)
    requires
        has_texture(f, a, key, address),
        grows(a, b),
        entries::find(g, key) == entries::find(f, key),
    ensures
        has_texture(g, b, key, address),
{
    if let Some(address) = address {
        let index = choose|index: nat| #[trigger]
            shows(a, index, address@) && names_texture(f, key, index);
        let image = choose|image: nat|
            #![trigger a.images[image as int]]
            image < a.images.len() && value::member(a.textures[index as int], "source"@) == Some(
                whole(image as int),
            ) && value::member(a.images[image as int], "uri"@) == Some(said(address@));
        assert(b.textures[index as int] == a.textures[index as int]);
        assert(b.images[image as int] == a.images[image as int]);
        assert(shows(b, index, address@));
        assert(names_texture(g, key, index));
    }
}

proof fn lemma_set(
    e: Seq<(Seq<char>, value::Model)>,
    key: Seq<char>,
    v: value::Model,
    other: Seq<char>,
)
    requires
        entries::rising(e),
    ensures
        entries::rising(entries::put(e, key, v)),
        entries::find(entries::put(e, key, v), other) == (if other == key {
            Some(v)
        } else {
            entries::find(e, other)
        }),
{
    entries::law_put_rising(e, key, v);
    if other == key {
        entries::law_find_put(e, key, v);
    } else {
        entries::law_find_other(e, key, v, other);
    }
}

proof fn lemma_reference(p: PartModel, key: Seq<char>, address: Option<String>, other: Seq<char>)
    requires
        entries::rising(p.fields),
        entries::find(p.fields, key) is None,
    ensures
        ({
            let after = pbr_gltf::with_reference(p, key, address);
            &&& entries::rising(after.fields)
            &&& grows(p.textures, after.textures)
            &&& has_texture(after.fields, after.textures, key, address)
            &&& other != key ==> entries::find(after.fields, other) == entries::find(
                p.fields,
                other,
            )
        }),
{
    if let Some(text) = address {
        let after = pbr_gltf::with_reference(p, key, address);
        let t = p.textures;
        let none = Seq::<(Seq<char>, value::Model)>::empty();
        let m = pbr_gltf::reference(t);
        lemma_set(none, "index"@, whole(t.textures.len() as int), "index"@);
        lemma_set(p.fields, key, m, key);
        lemma_set(p.fields, key, m, other);
        reveal_strlit("sampler");
        reveal_strlit("source");
        assert("sampler"@.len() == 7 && "source"@.len() == 6);
        let e1 = entries::put(none, "sampler"@, whole(0));
        let source = whole(t.images.len() as int);
        lemma_set(none, "sampler"@, whole(0), "sampler"@);
        lemma_set(e1, "source"@, source, "sampler"@);
        lemma_set(e1, "source"@, source, "source"@);
        lemma_set(none, "uri"@, said(text@), "uri"@);
        let index = t.textures.len();
        let image = t.images.len();
        assert(value::member(after.textures.images[image as int], "uri"@) == Some(said(text@)));
        assert(shows(after.textures, index, text@));
        assert(names_texture(after.fields, key, index));
    }
}

proof fn lemma_keys()
    ensures
        "baseColorFactor"@.len() == 15 && "baseColorFactor"@[0] == 'b',
        "metallicFactor"@.len() == 14 && "metallicFactor"@[0] == 'm',
        "roughnessFactor"@.len() == 15 && "roughnessFactor"@[0] == 'r',
        "baseColorTexture"@.len() == 16,
        "metallicRoughnessTexture"@.len() == 24,
        "name"@.len() == 4,
        "doubleSided"@.len() == 11 && "doubleSided"@[0] == 'd',
        "alphaMode"@.len() == 9,
        "pbrMetallicRoughness"@.len() == 20,
        "alphaCutoff"@.len() == 11 && "alphaCutoff"@[0] == 'a',
        "normalTexture"@.len() == 13,
        "emissiveTexture"@.len() == 15 && "emissiveTexture"@[0] == 'e',
        "emissiveFactor"@.len() == 14 && "emissiveFactor"@[0] == 'e',
        "extensions"@.len() == 10,
{
    reveal_strlit("baseColorFactor");
    reveal_strlit("metallicFactor");
    reveal_strlit("roughnessFactor");
    reveal_strlit("baseColorTexture");
    reveal_strlit("metallicRoughnessTexture");
    reveal_strlit("name");
    reveal_strlit("doubleSided");
    reveal_strlit("alphaMode");
    reveal_strlit("pbrMetallicRoughness");
    reveal_strlit("alphaCutoff");
    reveal_strlit("normalTexture");
    reveal_strlit("emissiveTexture");
    reveal_strlit("emissiveFactor");
    reveal_strlit("extensions");
}

/// The surface of a material has its factors under their names, and textures that lead to
/// the images of its base colour and of its metal and roughness.
pub proof fn law_surface(m: PbrMaterial, t: TexturesModel)
    ensures
        ({
            let p = pbr_gltf::surface(m, t);
            &&& entries::find(p.fields, "baseColorFactor"@) == Some(
                mesh_gltf::singles(m.base_color_factor@),
            )
            &&& entries::find(p.fields, "metallicFactor"@) == Some(
                value::single(m.metallic_factor as nat),
            )
            &&& entries::find(p.fields, "roughnessFactor"@) == Some(
                value::single(m.roughness_factor as nat),
            )
            &&& has_texture(p.fields, p.textures, "baseColorTexture"@, m.base_color_texture)
            &&& has_texture(
                p.fields,
                p.textures,
                "metallicRoughnessTexture"@,
                m.metallic_roughness_texture,
            )
        }),
{
    lemma_surface(m, t, "baseColorFactor"@);
    lemma_surface(m, t, "metallicFactor"@);
    lemma_surface(m, t, "roughnessFactor"@);
    lemma_keys();
}

proof fn lemma_surface(m: PbrMaterial, t: TexturesModel, key: Seq<char>)
    requires
        key == "baseColorFactor"@ || key == "metallicFactor"@ || key == "roughnessFactor"@,
    ensures
        ({
            let p = pbr_gltf::surface(m, t);
            &&& grows(t, p.textures)
            &&& entries::find(p.fields, key) == Some(
                if key == "baseColorFactor"@ {
                    mesh_gltf::singles(m.base_color_factor@)
                } else if key == "metallicFactor"@ {
                    value::single(m.metallic_factor as nat)
                } else {
                    value::single(m.roughness_factor as nat)
                },
            )
            &&& has_texture(p.fields, p.textures, "baseColorTexture"@, m.base_color_texture)
            &&& has_texture(
                p.fields,
                p.textures,
                "metallicRoughnessTexture"@,
                m.metallic_roughness_texture,
            )
        }),
{
    lemma_keys();
    let none = Seq::<(Seq<char>, value::Model)>::empty();
    let color = mesh_gltf::singles(m.base_color_factor@);
    let metal = value::single(m.metallic_factor as nat);
    let rough = value::single(m.roughness_factor as nat);
    let e1 = entries::put(none, "baseColorFactor"@, color);
    let e2 = entries::put(e1, "metallicFactor"@, metal);
    let e3 = entries::put(e2, "roughnessFactor"@, rough);
    let base = "baseColorTexture"@;
    let mixed = "metallicRoughnessTexture"@;
    lemma_set(none, "baseColorFactor"@, color, key);
    lemma_set(none, "baseColorFactor"@, color, base);
    lemma_set(none, "baseColorFactor"@, color, mixed);
    lemma_set(e1, "metallicFactor"@, metal, key);
    lemma_set(e1, "metallicFactor"@, metal, base);
    lemma_set(e1, "metallicFactor"@, metal, mixed);
    lemma_set(e2, "roughnessFactor"@, rough, key);
    lemma_set(e2, "roughnessFactor"@, rough, base);
    lemma_set(e2, "roughnessFactor"@, rough, mixed);
    let p0 = PartModel { fields: e3, textures: t };
    lemma_reference(p0, base, m.base_color_texture, key);
    lemma_reference(p0, base, m.base_color_texture, mixed);
    let p1 = pbr_gltf::with_reference(p0, base, m.base_color_texture);
    lemma_reference(p1, mixed, m.metallic_roughness_texture, key);
    lemma_reference(p1, mixed, m.metallic_roughness_texture, base);
    let p2 = pbr_gltf::with_reference(p1, mixed, m.metallic_roughness_texture);
    lemma_kept(p1.fields, p1.textures, p2.fields, p2.textures, base, m.base_color_texture);
}

proof fn lemma_opened(
    m: PbrMaterial,
    surface: Seq<(Seq<char>, value::Model)>,
    key: Seq<char>,
)
    ensures
        ({
            let e = pbr_gltf::opened(m, surface);
            &&& entries::rising(e)
            &&& entries::find(e, key) == (if key == "name"@ {
                Some(said(m.name@))
            } else if key == "doubleSided"@ {
                Some(value::Model::Bool(m.double_sided))
            } else if key == "alphaMode"@ {
                Some(said(m.alpha_mode@))
            } else if key == "pbrMetallicRoughness"@ {
                Some(value::Model::Object(surface))
            } else if key == "alphaCutoff"@ && m.alpha_cutoff is Some {
                Some(value::single(m.alpha_cutoff->0 as nat))
            } else {
                None
            })
        }),
{
    lemma_keys();
    let none = Seq::<(Seq<char>, value::Model)>::empty();
    let e1 = entries::put(none, "name"@, said(m.name@));
    let e2 = entries::put(e1, "doubleSided"@, value::Model::Bool(m.double_sided));
    let e3 = entries::put(e2, "alphaMode"@, said(m.alpha_mode@));
    let e4 = entries::put(e3, "pbrMetallicRoughness"@, value::Model::Object(surface));
    lemma_set(none, "name"@, said(m.name@), key);
    lemma_set(e1, "doubleSided"@, value::Model::Bool(m.double_sided), key);
    lemma_set(e2, "alphaMode"@, said(m.alpha_mode@), key);
    lemma_set(e3, "pbrMetallicRoughness"@, value::Model::Object(surface), key);
    if let Some(bits) = m.alpha_cutoff {
        lemma_set(e4, "alphaCutoff"@, value::single(bits as nat), key);
    }
}

proof fn lemma_material(m: PbrMaterial, t: TexturesModel, key: Seq<char>)
    ensures
        ({
            let (item, after) = pbr_gltf::material_item(m, t);
            let own = pbr_gltf::surface(m, t);
            let start = pbr_gltf::opened(m, own.fields);
            let fields = item->Object_0;
            &&& item is Object
            &&& grows(own.textures, after)
            &&& has_texture(fields, after, "normalTexture"@, m.normal_texture)
            &&& has_texture(fields, after, "emissiveTexture"@, m.emissive_texture)
            &&& key != "normalTexture"@ && key != "emissiveTexture"@ && key != "emissiveFactor"@
                && key != "extensions"@ ==> entries::find(fields, key) == entries::find(start, key)
        }),
{
    lemma_keys();
    let own = pbr_gltf::surface(m, t);
    let start = pbr_gltf::opened(m, own.fields);
    let normal = "normalTexture"@;
    let emissive = "emissiveTexture"@;
    lemma_opened(m, own.fields, normal);
    lemma_opened(m, own.fields, emissive);
    let p0 = PartModel { fields: start, textures: own.textures };
    lemma_reference(p0, normal, m.normal_texture, emissive);
    lemma_reference(p0, normal, m.normal_texture, key);
    let p1 = pbr_gltf::with_reference(p0, normal, m.normal_texture);
    lemma_reference(p1, emissive, m.emissive_texture, normal);
    lemma_reference(p1, emissive, m.emissive_texture, key);
    let p2 = pbr_gltf::with_reference(p1, emissive, m.emissive_texture);
    lemma_kept(p1.fields, p1.textures, p2.fields, p2.textures, normal, m.normal_texture);
    let factor = mesh_gltf::singles(m.emissive_factor@);
    let f3 = if m.emissive_texture is Some {
        entries::put(p2.fields, "emissiveFactor"@, factor)
    } else {
        p2.fields
    };
    lemma_set(p2.fields, "emissiveFactor"@, factor, normal);
    lemma_set(p2.fields, "emissiveFactor"@, factor, emissive);
    lemma_set(p2.fields, "emissiveFactor"@, factor, key);
    let more = value::Model::Object(pbr_gltf::extensions(m));
    let f4 = if pbr_gltf::extensions(m).len() == 0 {
        f3
    } else {
        entries::put(f3, "extensions"@, more)
    };
    lemma_set(f3, "extensions"@, more, normal);
    lemma_set(f3, "extensions"@, more, emissive);
    lemma_set(f3, "extensions"@, more, key);
    lemma_kept(p2.fields, p2.textures, f4, p2.textures, normal, m.normal_texture);
    lemma_kept(p2.fields, p2.textures, f4, p2.textures, emissive, m.emissive_texture);
}

/// A material has its name, its sides and its mode under their names, its surface, and
/// textures that lead to each of its four images.
pub proof fn law_material(m: PbrMaterial, t: TexturesModel)
    ensures
        ({
            let (item, after) = pbr_gltf::material_item(m, t);
            let surface = pbr_gltf::surface(m, t).fields;
            &&& value::member(item, "name"@) == Some(said(m.name@))
            &&& value::member(item, "doubleSided"@) == Some(value::Model::Bool(m.double_sided))
            &&& value::member(item, "alphaMode"@) == Some(said(m.alpha_mode@))
            &&& value::member(item, "alphaCutoff"@) == match m.alpha_cutoff {
                Some(bits) => Some(value::single(bits as nat)),
                None => None,
            }
            &&& value::member(item, "pbrMetallicRoughness"@) == Some(
                value::Model::Object(surface),
            )
            &&& has_texture(surface, after, "baseColorTexture"@, m.base_color_texture)
            &&& has_texture(
                surface,
                after,
                "metallicRoughnessTexture"@,
                m.metallic_roughness_texture,
            )
            &&& item is Object
            &&& has_texture(item->Object_0, after, "normalTexture"@, m.normal_texture)
            &&& has_texture(item->Object_0, after, "emissiveTexture"@, m.emissive_texture)
        }),
{
    lemma_keys();
    let own = pbr_gltf::surface(m, t);
    let after = pbr_gltf::material_item(m, t).1;
    law_surface(m, t);
    lemma_material(m, t, "name"@);
    lemma_material(m, t, "doubleSided"@);
    lemma_material(m, t, "alphaMode"@);
    lemma_material(m, t, "alphaCutoff"@);
    lemma_material(m, t, "pbrMetallicRoughness"@);
    lemma_opened(m, own.fields, "name"@);
    lemma_opened(m, own.fields, "doubleSided"@);
    lemma_opened(m, own.fields, "alphaMode"@);
    lemma_opened(m, own.fields, "alphaCutoff"@);
    lemma_opened(m, own.fields, "pbrMetallicRoughness"@);
    lemma_kept(
        own.fields,
        own.textures,
        own.fields,
        after,
        "baseColorTexture"@,
        m.base_color_texture,
    );
    lemma_kept(
        own.fields,
        own.textures,
        own.fields,
        after,
        "metallicRoughnessTexture"@,
        m.metallic_roughness_texture,
    );
}

proof fn lemma_without(own: Seq<(Seq<char>, value::Model)>, key: Seq<char>, n: nat)
    requires
        n <= own.len(),
    ensures
        ({
            let kept = pbr_gltf::without(own, key, n);
            &&& forall|i: int| 0 <= i < kept.len() ==> (#[trigger] kept[i]).0 != key
            &&& forall|i: int|
                0 <= i < n && (#[trigger] own[i]).0 != key ==> kept.contains(own[i])
            &&& forall|i: int| 0 <= i < kept.len() ==> own.contains(#[trigger] kept[i])
        }),
    decreases n,
{
    if n > 0 {
        lemma_without(own, key, (n - 1) as nat);
        let before = pbr_gltf::without(own, key, (n - 1) as nat);
        let kept = pbr_gltf::without(own, key, n);
        assert forall|i: int| 0 <= i < n && (#[trigger] own[i]).0 != key implies kept.contains(
            own[i],
        ) by {
            if i < n - 1 {
                assert(before.contains(own[i]));
                let k = choose|k: int| 0 <= k < before.len() && before[k] == own[i];
                assert(kept[k] == own[i]);
            } else {
                assert(kept[kept.len() - 1] == own[i]);
            }
        }
        assert forall|i: int| 0 <= i < kept.len() implies own.contains(#[trigger] kept[i]) by {
            if i < before.len() {
                assert(kept[i] == before[i]);
            } else {
                assert(own[n - 1] == kept[i]);
            }
        }
    }
}

/// Whether the attributes of a primitive are those of another but for the colours of
/// vertices.
pub open spec fn keeps(m: value::Model, attributes: Seq<(Seq<char>, value::Model)>) -> bool {
    match value::member(m, "attributes"@) {
        Some(value::Model::Object(kept)) => {
            &&& forall|i: int|
                0 <= i < kept.len() ==> (#[trigger] kept[i]).0 != "COLOR_0"@
                    && attributes.contains(kept[i])
            &&& forall|i: int|
                0 <= i < attributes.len() && (#[trigger] attributes[i]).0 != "COLOR_0"@
                    ==> kept.contains(attributes[i])
        },
        _ => false,
    }
}

/// A primitive gets its material and loses the colours of its vertices; its other
/// attributes stay.
pub proof fn law_primitive(
    own: Seq<(Seq<char>, value::Model)>,
    attributes: Seq<(Seq<char>, value::Model)>,
    index: nat,
)
    requires
        entries::rising(own),
        entries::find(own, "attributes"@) == Some(value::Model::Object(attributes)),
    ensures
        pbr_gltf::attached_primitive(value::Model::Object(own), index) matches Ok(m)
            && value::member(m, "material"@) == Some(whole(index as int)) && keeps(m, attributes),
{
    reveal_strlit("material");
    reveal_strlit("attributes");
    assert("material"@.len() == 8 && "attributes"@.len() == 10);
    let n = whole(index as int);
    lemma_set(own, "material"@, n, "attributes"@);
    lemma_set(own, "material"@, n, "material"@);
    lemma_without(attributes, "COLOR_0"@, attributes.len());
    let kept = value::Model::Object(
        pbr_gltf::without(attributes, "COLOR_0"@, attributes.len()),
    );
    let shown = entries::put(own, "material"@, n);
    lemma_set(shown, "attributes"@, kept, "attributes"@);
    lemma_set(shown, "attributes"@, kept, "material"@);
}

} // verus!
