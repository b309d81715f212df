//! Meshes, materials and what is exported of them.

use base64::engine::general_purpose::STANDARD;
use base64::Engine;
use ghostline_red::glb::{decode_glb, encode_glb, GlbError};
use ghostline_red::material::{
    collect_depot_paths, is_dependency, normalize_value, repo_path, MaterialError,
};
use ghostline_red::material_defaults::{complete_blender_defaults, template_defaults};
use ghostline_red::material_mask::{
    decode_mask_layer, downscale_nearest, grey_rgba, layer_file_name, mask_list, Mask,
};
use ghostline_red::material_records::{plan_materials, Source};
use ghostline_red::material_sidecar::{
    parent_path, resolve_material, sidecar_document, summarize, DependencyQueue, MaterialRecord,
};
use ghostline_red::material_texture::{
    flip_rows, read_texture, texture_image, Texture, TextureFormat,
};
use ghostline_red::mesh::{
    checked_element_offset, decode_dec4, decode_indices, decode_meshes, material_for_chunk,
    quantization_vector, u64_member_or_default, MeshError,
};
use ghostline_red::mesh_gltf::{build_glb, GltfMesh};
use ghostline_red::pbr::{
    bake_kind, cache_key, read_record, resource_string, select_materials, BakeKind, PbrError,
};
use ghostline_red::pbr_gltf::{attach_materials, PbrMaterial};
use ghostline_red::pbr_layers::{
    color, depot_to_path, find_layers, layer_choice, lookup_override, root_chunk, scalar,
};
use ghostline_red::value::{Number, Value};

fn object(entries: Vec<(&str, Value)>) -> Value {
    let mut list: Vec<(String, Value)> = entries
        .into_iter()
        .map(|(key, value)| (key.to_owned(), value))
        .collect();
    list.sort_by(|a, b| a.0.cmp(&b.0));
    Value::Object(list)
}

fn list(items: Vec<Value>) -> Value {
    Value::Array(items)
}

fn number_of(value: f64) -> Value {
    Value::Number(Number {
        integer: None,
        single: Some((value as f32).to_bits()),
        double: Some(value.to_bits()),
    })
}

fn bits(value: f32) -> u32 {
    value.to_bits()
}

fn single(number: Number) -> f32 {
    f32::from_bits(number.single.unwrap())
}

fn depot(path: &str) -> Value {
    object(vec![(
        "DepotPath",
        object(vec![
            ("$type", Value::text("ResourcePath")),
            ("$storage", Value::text("string")),
            ("$value", Value::text(path)),
        ]),
    )])
}

fn name(text: &str) -> Value {
    object(vec![("$value", Value::text(text))])
}

fn record(name: &str, data: Vec<(&str, Value)>) -> MaterialRecord {
    MaterialRecord {
        name: name.to_owned(),
        base_material: String::new(),
        material_template: String::new(),
        enable_mask: false,
        data: data
            .into_iter()
            .map(|(key, value)| (key.to_owned(), value))
            .collect(),
    }
}

fn texture(format: TextureFormat, data: &[u8]) -> Texture {
    Texture {
        compression: "test".to_owned(),
        format,
        data: data.to_vec(),
        width: 4,
        height: 4,
    }
}

/// A mesh of one triangle.
fn mesh_document(lod: i128) -> Value {
    let mut buffer = Vec::new();
    for (x, y, z) in [(0_i16, 0_i16, 0_i16), (32767, 0, 0), (0, 32767, 0)] {
        for part in [x, y, z, 0] {
            buffer.extend(part.to_le_bytes());
        }
    }
    for index in [0_u16, 1, 2] {
        buffer.extend(index.to_le_bytes());
    }
    let vector = |value: f64| {
        object(vec![
            ("X", number_of(value)),
            ("Y", number_of(value)),
            ("Z", number_of(value)),
            ("W", number_of(value)),
        ])
    };
    let element = object(vec![
        ("usage", Value::text("PS_Position")),
        ("usageIndex", Value::integer(0)),
        ("streamIndex", Value::integer(0)),
    ]);
    let chunk = object(vec![
        ("lodMask", Value::integer(lod)),
        ("numVertices", Value::integer(3)),
        ("numIndices", Value::integer(3)),
        (
            "chunkVertices",
            object(vec![
                ("byteOffsets", list(vec![Value::integer(0)])),
                (
                    "vertexLayout",
                    object(vec![
                        ("slotStrides", list(vec![Value::integer(8)])),
                        ("elements", list(vec![element])),
                    ]),
                ),
            ]),
        ),
        (
            "chunkIndices",
            object(vec![("teOffset", Value::integer(0))]),
        ),
    ]);
    let header = object(vec![
        ("quantizationScale", vector(2.0)),
        ("quantizationOffset", vector(0.5)),
        ("indexBufferOffset", Value::integer(24)),
        ("renderChunkInfos", list(vec![chunk])),
    ]);
    let blob = object(vec![
        ("header", header),
        (
            "renderBuffer",
            object(vec![("Bytes", Value::text(&STANDARD.encode(&buffer)))]),
        ),
    ]);
    let appearance = object(vec![(
        "Data",
        object(vec![
            ("name", name("default")),
            ("chunkMaterials", list(vec![name("steel")])),
        ]),
    )]);
    let entry = object(vec![
        ("name", name("steel")),
        ("index", Value::integer(0)),
        ("isLocalInstance", Value::integer(0)),
    ]);
    object(vec![(
        "Data",
        object(vec![(
            "RootChunk",
            object(vec![
                ("renderResourceBlob", object(vec![("Data", blob)])),
                ("appearances", list(vec![appearance])),
                ("materialEntries", list(vec![entry])),
                (
                    "localMaterialBuffer",
                    object(vec![
                        ("rawData", object(vec![("Bytes", Value::text(""))])),
                        ("rawDataHeaders", list(Vec::new())),
                    ]),
                ),
                ("externalMaterials", list(vec![depot(r"base\steel.mi")])),
            ]),
        )]),
    )])
}

fn triangle() -> GltfMesh {
    GltfMesh {
        name: "submesh_00_LOD_1".to_owned(),
        positions: [0.0, 0.0, 0.0, 1.0, 0.0, 0.0, 0.0, 1.0, 0.0]
            .iter()
            .map(|value: &f32| value.to_bits())
            .collect(),
        minimum: vec![bits(0.0), bits(0.0), bits(0.0)],
        maximum: vec![bits(1.0), bits(1.0), bits(0.0)],
        normals: Vec::new(),
        tangents: Vec::new(),
        colors: Vec::new(),
        tex_coords: Vec::new(),
        tex_coords_1: Vec::new(),
        indices: vec![0, 1, 2],
        material_names: vec!["steel".to_owned()],
    }
}

fn baked(name: &str) -> PbrMaterial {
    PbrMaterial {
        name: name.to_owned(),
        base_color_texture: Some("a.png".to_owned()),
        base_color_factor: vec![bits(1.0); 4],
        metallic_roughness_texture: None,
        metallic_factor: bits(0.0),
        roughness_factor: bits(1.0),
        normal_texture: None,
        emissive_texture: Some("e.png".to_owned()),
        emissive_factor: vec![bits(1.0); 3],
        emissive_strength: bits(2.0),
        alpha_mode: "OPAQUE",
        alpha_cutoff: None,
        transmission: bits(0.5),
        double_sided: false,
    }
}

#[test]
fn material_for_chunk_repeats_short_appearance_lists() {
    let materials = vec!["first".to_owned(), "second".to_owned()];

    assert_eq!(material_for_chunk(&materials, 3, 4), "second");
}

#[test]
fn material_for_chunk_has_a_default() {
    assert_eq!(material_for_chunk(&Vec::new(), 3, 4), "default");
}

#[test]
fn decode_dec4_maps_endpoints_to_signed_unit_range() {
    let (x, y, z, _) = decode_dec4(0x3ff | (0x3ff << 10) | (0x3ff << 20));

    assert!([x, y, z]
        .iter()
        .map(|part| f32::from(*part) / 1023.0 * 2.0 - 1.0)
        .all(|component| (component - 1.0).abs() < f32::EPSILON));
}

#[test]
fn encode_glb_writes_glb_version_two_header() {
    let result = encode_glb(br#"{"asset":{"version":"2.0"}}"#, Some(&[])).unwrap();

    assert_eq!(&result[..8], b"glTF\x02\0\0\0");
}

#[test]
fn decoded_glb_parts_are_those_encoded() {
    let bytes = encode_glb(b"{}", Some(b"12345678")).unwrap();
    assert_eq!(bytes.len() % 4, 0);
    let (json, binary) = decode_glb(&bytes).unwrap();
    assert_eq!(json, b"{}  ");
    assert_eq!(binary.unwrap(), b"12345678");
    assert_eq!(decode_glb(b"nope"), Err(GlbError::NotGlb));
    assert_eq!(decode_glb(&bytes[..16]), Err(GlbError::NotGlb));
    assert_eq!(GlbError::NoDocument.describe().is_empty(), false);
}

#[test]
fn u64_member_or_default_returns_zero_for_omitted_red_property() {
    let value = object(vec![("$type", Value::text("rendChunk"))]);

    assert_eq!(u64_member_or_default(&value, "lodMask").unwrap(), 0);
}

#[test]
fn quantization_vector_ignores_unused_non_numeric_w_component() {
    let value = object(vec![
        ("$type", Value::text("Vector4")),
        ("X", number_of(0.5)),
        ("Y", number_of(1.0)),
        ("Z", number_of(1.5)),
        ("W", Value::Null),
    ]);
    let (x, y, z) = quantization_vector(&value).unwrap();

    assert!([x, y, z]
        .iter()
        .zip([0.5, 1.0, 1.5])
        .all(|(actual, expected)| (single(*actual) - expected).abs() < f32::EPSILON));
}

#[test]
fn meshes_are_decoded() {
    let geometry = decode_meshes(&mesh_document(1), true).unwrap();
    assert_eq!(geometry.meshes.len(), 1);
    let mesh = &geometry.meshes[0];
    assert_eq!(mesh.name, "submesh_00_LOD_1");
    assert_eq!(
        mesh.positions,
        vec![(0, 0, 0), (32767, 0, 0), (0, 32767, 0)]
    );
    assert_eq!(mesh.indices.len(), 3);
    assert_eq!(mesh.material_names, vec!["steel".to_owned()]);
    assert_eq!(single(geometry.scale.0), 2.0);
    assert_eq!(single(geometry.offset.1), 0.5);
}

#[test]
fn coarse_meshes_are_left_out() {
    assert_eq!(
        decode_meshes(&mesh_document(2), true).unwrap_err(),
        MeshError::Reason {
            reason: "mesh has no exportable render chunks"
        }
    );
    assert_eq!(decode_meshes(&mesh_document(2), false).unwrap().meshes.len(), 1);
    assert_eq!(
        decode_meshes(&Value::Null, true).unwrap_err(),
        MeshError::Missing { name: "Data" }
    );
}

#[test]
fn vertices_and_indices_stay_in_bounds() {
    assert_eq!(checked_element_offset(4, 8, 2, 6, 26), Ok(20));
    assert!(checked_element_offset(4, 8, 2, 6, 25).is_err());
    assert!(checked_element_offset(usize::MAX, 8, 2, 6, 25).is_err());
    let bytes = [0, 0, 1, 0, 2, 0];
    assert_eq!(decode_indices(&bytes, 0, 3, 3).unwrap(), vec![1, 0, 2]);
    assert_eq!(
        decode_indices(&bytes, 0, 3, 2),
        Err(MeshError::VertexIndex {
            vertex: 2,
            count: 2
        })
    );
}

#[test]
fn gltf_documents_hold_their_meshes() {
    let (document, binary) = build_glb(&vec![triangle()]).unwrap();
    assert_eq!(binary.len() % 4, 0);
    assert_eq!(&binary[12..16], &1.0_f32.to_le_bytes());
    let Some(Value::Array(meshes)) = document.get("meshes") else {
        panic!("no meshes");
    };
    assert_eq!(meshes.len(), 1);
    assert_eq!(
        document.get("asset").unwrap().get("version"),
        Some(&Value::text("2.0"))
    );
    let mut empty = triangle();
    empty.positions.clear();
    assert!(build_glb(&vec![empty]).is_err());
}

#[test]
fn normalizes_red_values_for_material_sidecars() {
    let value = object(vec![
        ("$type", Value::text("rRef:ITexture")),
        (
            "DepotPath",
            object(vec![
                ("$type", Value::text("ResourcePath")),
                ("$storage", Value::text("string")),
                ("$value", Value::text("base\\texture.xbm")),
            ]),
        ),
        ("Flags", Value::text("Default")),
    ]);
    assert_eq!(normalize_value(&value), Value::text("base\\texture.xbm"));
}

#[test]
fn rejects_escaping_depot_paths() {
    assert!(repo_path("..\\outside.xbm").is_err());
}

#[test]
fn repository_paths_use_slashes() {
    assert_eq!(repo_path("base\\a\\b.xbm"), Ok("base/a/b.xbm".to_owned()));
}

#[test]
fn nearest_downscale_samples_source_grid() {
    assert_eq!(
        downscale_nearest(&vec![0, 1, 2, 3, 4, 5, 6, 7, 8], 3, 3, 2, 2),
        vec![0, 1, 3, 4]
    );
}

#[test]
fn dependencies_are_collected() {
    assert!(is_dependency("base\\a.xbm"));
    assert!(!is_dependency("base\\a.mesh"));
    let mut queue = Vec::new();
    collect_depot_paths(
        &list(vec![Value::text("base\\a.xbm"), Value::text("plain"), depot("base\\b.mi")]),
        &mut queue,
    );
    assert_eq!(queue, vec!["base\\a.xbm", "base\\b.mi", "base\\b.mi"]);
}

#[test]
fn masks_are_drawn_tile_by_tile() {
    assert_eq!(grey_rgba(&[7, 9]), vec![7, 7, 7, 255, 9, 9, 9, 255]);
    assert_eq!(layer_file_name("m", 3), "m_3.png");
    assert!(mask_list("m", 2).contains("m_0.png"));
    let mask = Mask {
        atlas: vec![5; 16],
        atlas_width: 4,
        tiles: Vec::new(),
        width: 2,
        height: 2,
        low_width: 1,
        low_height: 1,
        tile_size: 2,
    };
    assert_eq!(decode_mask_layer(&mask, 0).len(), 4);
}

#[test]
fn block_textures_are_decoded() {
    let white = [0xff, 0xff, 0xff, 0xff, 0, 0, 0, 0];
    let image = texture_image(&texture(TextureFormat::Bc1, &white)).unwrap().unwrap();
    assert_eq!(image.len(), 64);
    assert!(image.iter().all(|part| *part == 0xff));
    let mut solid = [0_u8; 16];
    solid[0] = 0x80;
    solid[1] = 0x80;
    solid[8..].copy_from_slice(&white);
    let image = texture_image(&texture(TextureFormat::Bc3, &solid)).unwrap().unwrap();
    assert_eq!(&image[..4], &[0xff, 0xff, 0xff, 0x80]);
    let grey = [0x40, 0x40, 0, 0, 0, 0, 0, 0];
    let image = texture_image(&texture(TextureFormat::Bc4, &grey)).unwrap().unwrap();
    assert_eq!(image[0], 0x40);
    let mut pair = [0_u8; 16];
    pair[..8].copy_from_slice(&grey);
    pair[8..].copy_from_slice(&[0x20, 0x20, 0, 0, 0, 0, 0, 0]);
    let image = texture_image(&texture(TextureFormat::Bc5, &pair)).unwrap().unwrap();
    assert_eq!(&image[..2], &[0x40, 0x20]);
    let seven = [0x40_u8; 16];
    let image = texture_image(&texture(TextureFormat::Bc7, &seven)).unwrap().unwrap();
    assert_eq!(image.len(), 64);
    assert_ne!(image, vec![0x40; 64]);
    let mut half = [0_u8; 16];
    half[0] = 0xe3;
    half[1] = 0x7f;
    let image = texture_image(&texture(TextureFormat::HalfHdr, &half)).unwrap().unwrap();
    assert_eq!(image.len(), 64);
    assert_eq!(&image[..4], &[0xff, 0, 0, 0xff]);
    half[1] = 0x3f;
    let image = texture_image(&texture(TextureFormat::HalfHdrSigned, &half)).unwrap().unwrap();
    assert_eq!(&image[..4], &[0xff, 0, 0, 0xff]);
    half[0] = 0x0f;
    assert_eq!(texture_image(&texture(TextureFormat::HalfHdr, &half)), Ok(None));
    assert_eq!(texture_image(&texture(TextureFormat::HalfHdrSigned, &half)), Ok(None));
    assert!(texture_image(&texture(TextureFormat::HalfHdr, &half[..8])).is_err());
}

#[test]
fn short_textures_are_rejected() {
    assert!(matches!(
        texture_image(&texture(TextureFormat::Bc1, &[0; 4])),
        Err(MaterialError::Texture { .. })
    ));
}

#[test]
fn rows_are_turned_upside_down() {
    let pixels = vec![0xff00_0001, 0xff00_0002];
    let image = flip_rows(&pixels, 1, false);
    assert_eq!(image, vec![0, 0, 2, 255, 0, 0, 1, 255]);
}

#[test]
fn textures_without_a_blob_are_rejected() {
    assert!(read_texture(&Value::Null).is_err());
    assert!(complete_blender_defaults(&Value::Null, "mlsetup").is_err());
    assert!(matches!(template_defaults("unknown"), Value::Object(_)));
}

#[test]
fn materials_are_planned() {
    let plan = plan_materials(&mesh_document(1), Some("default")).unwrap();
    assert_eq!(plan.sources.len(), 1);
    assert_eq!(plan.sources[0].0, "steel");
    assert_eq!(
        plan.sources[0].1,
        Source::External {
            path: r"base\steel.mi".to_owned()
        }
    );
    assert!(plan_materials(&mesh_document(1), Some("missing")).is_err());
}

#[test]
fn own_values_win_over_those_of_the_parent() {
    let parent = record("parent", vec![("Color", Value::text("red"))]);
    let document = object(vec![(
        "Data",
        object(vec![(
            "RootChunk",
            object(vec![
                ("baseMaterial", depot(r"base\parent.mi")),
                (
                    "values",
                    list(vec![object(vec![
                        ("$type", Value::text("CName")),
                        ("Color", Value::text("blue")),
                    ])]),
                ),
            ]),
        )]),
    )]);
    assert_eq!(
        parent_path(&document, 0).unwrap().as_deref(),
        Some(r"base\parent.mi")
    );
    let own = resolve_material("own".to_owned(), &document, Some(parent)).unwrap();
    assert_eq!(own.name, "own");
    assert_eq!(own.data.len(), 1);
    assert_eq!(own.data[0].1, Value::text("blue"));
}

#[test]
fn dependencies_are_exported_once() {
    let records = vec![
        record("a", vec![("Texture", Value::text(r"base\a.xbm"))]),
        record("b", vec![("Texture", Value::text(r"BASE\A.xbm"))]),
    ];
    let mut queue = DependencyQueue::new(&records);
    let first = queue.take_next().unwrap();
    queue.add_texture(&first);
    queue.add_mask();
    queue.add_document(&Value::text(r"base\c.mi"));
    assert_eq!(queue.take_next().as_deref(), Some(r"base\c.mi"));
    assert_eq!(queue.take_next(), None);
    let summary = summarize(&records, &queue);
    assert_eq!(summary.materials, 2);
    assert_eq!(summary.dependencies, 2);
    assert_eq!(summary.textures, 1);
    assert_eq!(summary.masks, 1);
    let sidecar = sidecar_document("repo", &records, &queue.textures, Vec::new());
    assert_eq!(sidecar.get("MaterialRepo"), Some(&Value::text("repo")));
}

#[test]
fn templates_decide_how_materials_are_baked() {
    assert_eq!(
        bake_kind(r"engine\materials\multilayered.mt"),
        Some(BakeKind::Multilayered)
    );
    assert_eq!(bake_kind(r"base\unknown.mt"), None);
    assert!(matches!(read_record(&Value::Null), Err(PbrError::Missing { .. })));
    assert_eq!(resource_string(&Value::Null), None);
    assert_eq!(resource_string(&Value::text("a.xbm")), Some("a.xbm"));
    assert!(select_materials(&Value::Null, "default").is_err());
}

#[test]
fn cache_keys_depend_on_record_and_size() {
    let key = cache_key(b"record", 512);
    assert!(key.chars().all(|c| c.is_ascii_hexdigit()));
    assert_eq!(key, cache_key(b"record", 512));
    assert_ne!(key, cache_key(b"record", 256));
    assert_ne!(key, cache_key(b"other", 512));
}

#[test]
fn baked_materials_are_attached() {
    let (document, _) = build_glb(&vec![triangle()]).unwrap();
    let names = vec!["steel".to_owned()];
    let done = attach_materials(&document, &names, &vec![baked("steel")]).unwrap();
    let Some(Value::Array(materials)) = done.get("materials") else {
        panic!("no materials");
    };
    assert_eq!(materials[0].get("name"), Some(&Value::text("steel")));
    let more = materials[0].get("extensions").unwrap();
    assert!(more.get("KHR_materials_emissive_strength").is_some());
    assert!(more.get("KHR_materials_transmission").is_some());
    let Some(Value::Array(images)) = done.get("images") else {
        panic!("no images");
    };
    assert_eq!(images[0].get("uri"), Some(&Value::text("a.png")));
    assert_eq!(images[1].get("uri"), Some(&Value::text("e.png")));
    assert!(done.get("extensionsUsed").is_some());
    assert_eq!(
        attach_materials(&document, &names, &vec![baked("brass")]),
        Err(PbrError::Missing {
            reason: "no baked material",
            name: "steel".to_owned()
        })
    );
    assert_eq!(
        attach_materials(&Value::Null, &names, &Vec::new()),
        Err(PbrError::Malformed {
            reason: "GLB root is not an object"
        })
    );
}

#[test]
fn layers_choose_before_their_templates() {
    let layer = object(vec![("colorScale", name("own"))]);
    let defaults = object(vec![
        ("colorScale", name("default")),
        ("roughLevelsOut", name("rough")),
    ]);
    assert_eq!(layer_choice(&layer, &defaults, "colorScale"), "own");
    assert_eq!(layer_choice(&layer, &defaults, "roughLevelsOut"), "rough");
    assert_eq!(layer_choice(&layer, &defaults, "metalLevelsOut"), "null");
}

#[test]
fn overrides_have_as_many_numbers_as_wanted() {
    let elements = object(vec![(
        "Elements",
        list(vec![number_of(0.5), number_of(0.25), Value::Null]),
    )]);
    let overrides = object(vec![(
        "colorScale",
        list(vec![
            object(vec![("n", name("other"))]),
            object(vec![("n", name("red")), ("v", elements)]),
        ]),
    )]);
    assert_eq!(
        lookup_override(&overrides, "colorScale", "red", 2),
        Some(vec![0.5_f64.to_bits(), 0.25_f64.to_bits()])
    );
    assert_eq!(lookup_override(&overrides, "colorScale", "red", 3), None);
    assert_eq!(lookup_override(&overrides, "colorScale", "other", 0), None);
    assert_eq!(lookup_override(&overrides, "rough", "red", 2), None);
}

#[test]
fn colours_and_vectors_are_read() {
    let colour = object(vec![("Red", number_of(1.0)), ("Alpha", number_of(0.5))]);
    assert_eq!(
        color(&colour),
        vec![Some(1.0_f64.to_bits()), None, None, Some(0.5_f64.to_bits())]
    );
    let vector = object(vec![("Y", number_of(2.0))]);
    assert_eq!(color(&vector), vec![None, Some(2.0_f64.to_bits()), None, None]);
    assert_eq!(scalar(&vector, "Y"), Some(2.0_f64.to_bits()));
    assert_eq!(scalar(&vector, "X"), None);
}

#[test]
fn setups_have_layers() {
    let setup = |layers: Vec<Value>| {
        object(vec![(
            "Data",
            object(vec![("RootChunk", object(vec![("layers", list(layers))]))]),
        )])
    };
    assert_eq!(find_layers(&setup(vec![Value::Null])).unwrap().len(), 1);
    assert!(find_layers(&setup(Vec::new())).is_err());
    assert!(matches!(
        root_chunk(&Value::Null),
        Err(PbrError::Malformed { .. })
    ));
}

#[test]
fn depot_paths_lead_below_a_repository() {
    assert_eq!(
        depot_to_path(r"base\surfaces\metal.mltemplate", "mltemplate.json"),
        "base/surfaces/metal.mltemplate.json"
    );
    assert_eq!(depot_to_path(r"base\plain", "png"), "base/plain.png");
}
