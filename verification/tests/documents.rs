//! CR2W resources, RED packages and localization.

use ghostline_red::codec_document::{
    decode_exports, decode_exports_with_red_schema, decode_wkit, decode_wkit_with_red_schema,
    decode_wkit_with_schema, find_packed_part, unpack_buffers,
};
use ghostline_red::codec_handles::{expand_handles, reachable_handle_ids};
use ghostline_red::codec_reader::CodecError;
use ghostline_red::cr2w::{inspect, Cr2wBuffer, Cr2wError};
use ghostline_red::kraken;
use ghostline_red::localization::{
    read_entries, read_vlq, Layout, LocalizationError, OnScreenEntry,
};
use ghostline_red::localization_writer::write_entries;
use ghostline_red::red_types::{
    channel_link_type, hex, interpolation_type, segment_link_type, split_fixed_array_type,
};
use ghostline_red::redpackage::{imports_are_hashed, PackageError, PackageSettings};
use ghostline_red::redpackage_build::encode_with_template;
use ghostline_red::redpackage_document::decode;
use ghostline_red::schema::{
    from_metadata, RedClass, RedProperty, RedSchema, RedmodClass, RedmodMetadata, RedmodProperty,
};
use ghostline_red::schema_source::{add_class, read_class};
use ghostline_red::value::Value;

const TABLES: usize = 40;

fn object(entries: Vec<(&str, Value)>) -> Value {
    Value::Object(
        entries
            .into_iter()
            .map(|(key, value)| (key.to_owned(), value))
            .collect(),
    )
}

fn handle(index: i128) -> Value {
    object(vec![("$handle", Value::integer(index))])
}

fn names(list: &[&str]) -> Vec<String> {
    list.iter().map(|name| (*name).to_owned()).collect()
}

fn settings() -> PackageSettings {
    PackageSettings {
        imports_as_hash: false,
        handle_id_base: 0,
    }
}

/// A resource whose names are some strings, behind the empty one.
fn resource(words: &[&str], exports: &[(u16, Vec<u8>)]) -> Vec<u8> {
    let mut strings = vec![0_u8];
    let mut offsets = vec![0_u32];
    for word in words {
        offsets.push(strings.len() as u32);
        strings.extend(word.as_bytes());
        strings.push(0);
    }
    let start = TABLES + 120;
    let name_table = start + strings.len();
    let export_table = name_table + 8 * offsets.len();
    let mut data_offset = export_table + 24 * exports.len();
    let mut bytes = b"CR2W".to_vec();
    for value in [195_u32, 0, 0, 0, 7, 0, 0, 0, exports.len() as u32] {
        bytes.extend(value.to_le_bytes());
    }
    for table in 0..10 {
        let (offset, count) = match table {
            0 => (start, strings.len()),
            1 => (name_table, offsets.len()),
            4 => (export_table, exports.len()),
            _ => (start, 0),
        };
        bytes.extend((offset as u32).to_le_bytes());
        bytes.extend((count as u32).to_le_bytes());
        bytes.extend(0_u32.to_le_bytes());
    }
    bytes.extend(&strings);
    for offset in &offsets {
        bytes.extend(offset.to_le_bytes());
        bytes.extend(0_u32.to_le_bytes());
    }
    for (class, data) in exports {
        bytes.extend(class.to_le_bytes());
        bytes.extend(0_u16.to_le_bytes());
        bytes.extend(0_u32.to_le_bytes());
        bytes.extend((data.len() as u32).to_le_bytes());
        bytes.extend((data_offset as u32).to_le_bytes());
        bytes.extend([0; 8]);
        data_offset += data.len();
    }
    for (_, data) in exports {
        bytes.extend(data);
    }
    bytes
}

fn class(properties: &[(u16, u16, Vec<u8>)]) -> Vec<u8> {
    let mut out = vec![0_u8];
    for (name, red_type, payload) in properties {
        out.extend(name.to_le_bytes());
        out.extend(red_type.to_le_bytes());
        out.extend((payload.len() as u32 + 4).to_le_bytes());
        out.extend(payload);
    }
    out.extend([0, 0]);
    out
}

/// A package of some names and of chunks with the indexes of their types.
fn package_of(words: &[&str], chunks: &[(u32, Vec<u8>)]) -> Vec<u8> {
    let mut pool = Vec::new();
    let mut descriptors = Vec::new();
    for word in words {
        let at = 4 * words.len() + pool.len();
        descriptors.extend((at as u32 | ((word.len() as u32 + 1) << 24)).to_le_bytes());
        pool.extend(word.as_bytes());
        pool.push(0);
    }
    let name_data = descriptors.len();
    let chunk_desc = name_data + pool.len();
    let chunk_data = chunk_desc + 8 * chunks.len();
    let mut bytes = vec![4, 0, 6, 0, 0, 0, 0, 0];
    for offset in [0, name_data, chunk_desc, chunk_data] {
        bytes.extend((offset as u32).to_le_bytes());
    }
    bytes.extend([0xff, 0xff, 0, 0]);
    bytes.extend(&descriptors);
    bytes.extend(&pool);
    let mut at = chunk_data;
    for (red_type, data) in chunks {
        bytes.extend(red_type.to_le_bytes());
        bytes.extend((at as u32).to_le_bytes());
        at += data.len();
    }
    for (_, data) in chunks {
        bytes.extend(data);
    }
    bytes
}

/// The data of a class in a package: its fields by name, type and value.
fn fields(list: &[(u16, u16, Vec<u8>)]) -> Vec<u8> {
    let mut out = (list.len() as u16).to_le_bytes().to_vec();
    let mut at = 2 + 8 * list.len();
    for (name, red_type, data) in list {
        out.extend(name.to_le_bytes());
        out.extend(red_type.to_le_bytes());
        out.extend((at as u32).to_le_bytes());
        at += data.len();
    }
    for (_, _, data) in list {
        out.extend(data);
    }
    out
}

/// A package of one class with a number and a name.
fn package(number: i32) -> Vec<u8> {
    package_of(
        &["Root", "number", "Int32", "tag", "CName", "apple"],
        &[(
            0,
            fields(&[
                (1, 2, number.to_le_bytes().to_vec()),
                (3, 4, 5_u16.to_le_bytes().to_vec()),
            ]),
        )],
    )
}

fn entry(female: &str, secondary: &str) -> OnScreenEntry {
    OnScreenEntry {
        red_type: "localizationPersistenceOnScreenEntry".to_owned(),
        female_variant: female.to_owned(),
        male_variant: String::new(),
        primary_key: "0".to_owned(),
        secondary_key: secondary.to_owned(),
    }
}

fn localization_template() -> Vec<u8> {
    resource(
        &[
            "JsonResource",
            "localizationPersistenceOnScreenEntries",
            "entries",
            "array:localizationPersistenceOnScreenEntry",
            "String",
            "femaleVariant",
            "maleVariant",
            "secondaryKey",
        ],
        &[
            (1, vec![0, 0, 0]),
            (2, class(&[(3, 4, 0_u32.to_le_bytes().to_vec())])),
        ],
    )
}

fn legacy(base: &str, properties: &[(&str, &str)]) -> RedClass {
    RedClass {
        base: Some(base.to_owned()),
        properties: properties
            .iter()
            .map(|(name, cs_type)| {
                (
                    (*name).to_owned(),
                    RedProperty {
                        cs_type: (*cs_type).to_owned(),
                        ordinal: Some(1),
                        red_type: None,
                        offset: None,
                        flags: None,
                    },
                )
            })
            .collect(),
        flags: None,
        size: None,
        alignment: None,
    }
}

fn official(name: &str, parent: &str, red_type: &str) -> RedmodClass {
    RedmodClass {
        name: name.to_owned(),
        parent: parent.to_owned(),
        flags: 2,
        size: 16,
        alignment: 8,
        properties: vec![RedmodProperty {
            name: "mode".to_owned(),
            red_type: red_type.to_owned(),
            offset: 4,
            flags: 17,
        }],
    }
}

fn found<'a, V>(entries: &'a [(String, V)], key: &str) -> &'a V {
    &entries.iter().find(|(name, _)| name == key).unwrap().1
}

#[test]
fn handle_ids_follow_export_order() {
    let exports = vec![
        object(vec![("$type", Value::text("Root"))]),
        object(vec![("$type", Value::text("Second"))]),
        object(vec![("$type", Value::text("First"))]),
    ];
    let value = Value::Array(vec![handle(2), handle(2), handle(1)]);

    let handle_ids = vec![None, Some(0), Some(1)];
    let actual =
        expand_handles(&value, &exports, &handle_ids, &mut vec![false; 3]).unwrap();

    let first = object(vec![
        ("Data", object(vec![("$type", Value::text("First"))])),
        ("HandleId", Value::text("1")),
    ]);
    let again = object(vec![("HandleRefId", Value::text("1"))]);
    let second = object(vec![
        ("Data", object(vec![("$type", Value::text("Second"))])),
        ("HandleId", Value::text("0")),
    ]);
    assert_eq!(actual, Value::Array(vec![first, again, second]));
}

#[test]
fn expand_handles_decodes_zero_pointer_as_null() {
    let value = handle(u32::MAX as i128);
    let actual = expand_handles(&value, &Vec::new(), &Vec::new(), &mut Vec::new()).unwrap();

    assert_eq!(actual, Value::Null);
}

#[test]
fn handles_without_a_number_are_rejected() {
    let value = handle(0);
    assert_eq!(
        expand_handles(&value, &vec![Value::Null], &vec![None], &mut vec![false]),
        Err(CodecError::Malformed {
            offset: 0,
            reason: "unreachable handle"
        })
    );
}

#[test]
fn reachable_exports_are_numbered() {
    let exports = vec![
        object(vec![("a", handle(2)), ("b", handle(1))]),
        Value::Null,
        Value::Null,
    ];
    let ids = reachable_handle_ids(&exports, &Vec::new(), None).unwrap();
    assert_eq!(ids[1], Some(1));
    assert_eq!(ids[2], Some(0));
}

#[test]
fn parses_fixed_array_type() {
    assert_eq!(
        split_fixed_array_type("[3]Int16"),
        Some((3, "Int16".to_owned()))
    );
    assert_eq!(
        split_fixed_array_type("[2][3]Float"),
        Some((2, "[3]Float".to_owned()))
    );
    assert_eq!(split_fixed_array_type("array:Int16"), None);
}

#[test]
fn maps_legacy_curve_enums() {
    assert_eq!(interpolation_type(3), Some("BezierCubic"));
    assert_eq!(segment_link_type(1), Some("ESLT_Smooth"));
    assert_eq!(channel_link_type(2), Some("SmoothSymmertric"));
    assert_eq!(interpolation_type(5), None);
    assert_eq!(segment_link_type(3), None);
    assert_eq!(channel_link_type(3), None);
}

#[test]
fn bytes_are_written_as_hexadecimal() {
    assert_eq!(hex(&[0x00, 0x9f, 0xff]), "009fff");
}

#[test]
fn resources_are_inspected() {
    let bytes = resource(&["Root"], &[(1, class(&[]))]);
    let file = inspect(&bytes).unwrap();
    assert_eq!(file.header.version, 195);
    assert_eq!(file.header.build_version, 7);
    assert_eq!(file.names[0].value, "None");
    assert_eq!(file.names[1].value, "Root");
    assert_eq!(file.exports[0].class_name, "Root");
    assert!(matches!(
        inspect(b"RIFF0000"),
        Err(Cr2wError::InvalidMagic { .. })
    ));
    assert_eq!(inspect(&bytes[..30]).unwrap_err(), Cr2wError::Truncated);
}

#[test]
fn properties_are_decoded() {
    let bytes = resource(
        &["Root", "count", "Int32", "title", "String", "flag", "Bool"],
        &[(
            1,
            class(&[
                (2, 3, (-7_i32).to_le_bytes().to_vec()),
                (4, 5, b"\x83abc".to_vec()),
                (6, 7, vec![1]),
            ]),
        )],
    );
    let document = decode_exports(&bytes, &names(&["Root"]), &Vec::new()).unwrap();
    let Some(Value::Array(exports)) = document.get("exports") else {
        panic!("no exports");
    };
    let content = exports[0].get("value").unwrap();
    assert_eq!(content.get("$type").unwrap().as_text(), Some("Root"));
    assert_eq!(content.get("count").unwrap().as_integer(), Some(-7));
    assert_eq!(content.get("title").unwrap().as_text(), Some("abc"));
    assert_eq!(content.get("flag"), Some(&Value::Bool(true)));
}

#[test]
fn wide_texts_and_buffers_are_decoded() {
    let bytes = resource(
        &["Root", "title", "String"],
        &[(1, class(&[(2, 3, vec![2, 0x41, 0x00, 0xe9, 0x00])]))],
    );
    let document = decode_wkit(&bytes, &names(&["Root"]), &Vec::new(), "file.bin").unwrap();
    let root = document.get("Data").unwrap().get("RootChunk").unwrap();
    assert_eq!(root.get("title").unwrap().as_text(), Some("Aé"));
    assert_eq!(
        document.get("Header").unwrap().get("ArchiveFileName"),
        Some(&Value::text("file.bin"))
    );
}

#[test]
fn schemas_steer_the_documents() {
    let bytes = resource(
        &["Root", "mode", "ExampleMode", "First"],
        &[(1, class(&[(2, 3, vec![4, 0])]))],
    );
    let mut schema = RedSchema::default();
    schema
        .classes
        .push(("Root".to_owned(), legacy("Base", &[])));
    schema.enums.push("ExampleMode".to_owned());
    let document =
        decode_wkit_with_red_schema(&bytes, &schema, &Vec::new(), "file.bin").unwrap();
    let root = document.get("Data").unwrap().get("RootChunk").unwrap();
    assert_eq!(root.get("mode").unwrap().as_text(), Some("First"));
    let again =
        decode_wkit_with_schema(&bytes, &schema.classes, &Vec::new(), "file.bin").unwrap();
    assert_eq!(again.get("Data"), document.get("Data"));
    assert!(decode_exports_with_red_schema(&bytes, &schema, &Vec::new()).is_ok());
}

#[test]
fn broken_exports_are_rejected() {
    let bytes = resource(&["Root"], &[(1, vec![0, 0, 0, 0])]);
    assert_eq!(
        decode_exports(&bytes, &names(&["Root"]), &Vec::new()),
        Err(CodecError::Malformed {
            offset: bytes.len() - 1,
            reason: "export trailing bytes"
        })
    );
    let empty = resource(&["Root"], &[]);
    assert_eq!(
        decode_wkit(&empty, &names(&["Root"]), &Vec::new(), ""),
        Err(CodecError::Malformed {
            offset: 0,
            reason: "root export"
        })
    );
    assert!(matches!(
        decode_exports(b"RIFF", &Vec::new(), &Vec::new()),
        Err(CodecError::Cr2w(Cr2wError::InvalidMagic { .. }))
    ));
}

#[test]
fn packed_parts_are_found() {
    let mut bytes = b"1234KARK".to_vec();
    bytes.extend(99_u32.to_le_bytes());
    bytes.extend(b"data");
    let buffer = Cr2wBuffer {
        flags: 0,
        index: 0,
        offset: 4,
        disk_size: 12,
        memory_size: 99,
        crc32: 0,
    };
    assert_eq!(find_packed_part(&bytes, &buffer), Some((12, 16, 99)));
    let plain = Cr2wBuffer {
        memory_size: 12,
        ..buffer
    };
    assert_eq!(find_packed_part(b"1234plainplain00", &plain), None);
}

#[test]
fn packed_buffers_are_unpacked() {
    let content: Vec<u8> = (0..600_u32).map(|i| (i % 7) as u8).collect();
    let mut bytes = b"KARK".to_vec();
    bytes.extend(600_u32.to_le_bytes());
    bytes.extend(kraken::encode(&content));
    let whole = Cr2wBuffer {
        flags: 0,
        index: 0,
        offset: 0,
        disk_size: bytes.len() as u32,
        memory_size: 600,
        crc32: 0,
    };
    let plain = Cr2wBuffer {
        flags: 0,
        index: 1,
        offset: 4,
        disk_size: 4,
        memory_size: 4,
        crc32: 0,
    };
    assert_eq!(
        unpack_buffers(&bytes, &vec![whole, plain]),
        vec![Some(content), None]
    );
}

#[test]
fn packages_are_decoded() {
    let document = decode(&package(-3), &names(&["Root"]), settings()).unwrap();
    assert_eq!(document.get("Version"), Some(&Value::integer(4)));
    assert_eq!(document.get("Sections"), Some(&Value::integer(6)));
    assert_eq!(document.get("CruidIndex"), Some(&Value::integer(-1)));
    let Some(Value::Array(chunks)) = document.get("Chunks") else {
        panic!("no chunks");
    };
    assert_eq!(chunks.len(), 1);
    assert_eq!(chunks[0].get("number"), Some(&Value::integer(-3)));
    assert_eq!(
        chunks[0].get("tag").unwrap().get("$value"),
        Some(&Value::text("apple"))
    );
    assert_eq!(imports_are_hashed(&package(-3)), Ok(false));
}

#[test]
fn unchanged_packages_come_back() {
    let bytes = package(5);
    let classes = names(&["Root"]);
    let document = decode(&bytes, &classes, settings()).unwrap();
    let rebuilt = encode_with_template(&bytes, &document, &classes, settings()).unwrap();
    assert_eq!(decode(&rebuilt, &classes, settings()).unwrap(), document);
}

#[test]
fn packages_with_handles_and_arrays_come_back() {
    let mut list = 3_u32.to_le_bytes().to_vec();
    for number in [1_i32, -2, 300] {
        list.extend(number.to_le_bytes());
    }
    let bytes = package_of(
        &["Root", "list", "array:Int32", "next", "handle:Leaf", "Leaf", "tag", "CName", "apple"],
        &[
            (0, fields(&[(1, 2, list), (3, 4, 1_i32.to_le_bytes().to_vec())])),
            (5, fields(&[(6, 7, 8_u16.to_le_bytes().to_vec())])),
        ],
    );
    let classes = names(&["Root", "Leaf"]);
    let document = decode(&bytes, &classes, settings()).unwrap();
    let Some(Value::Array(chunks)) = document.get("Chunks") else {
        panic!("no chunks");
    };
    assert_eq!(
        chunks[0].get("list"),
        Some(&Value::Array(vec![
            Value::integer(1),
            Value::integer(-2),
            Value::integer(300),
        ]))
    );
    let leaf = chunks[0].get("next").unwrap().get("Data").unwrap();
    assert_eq!(leaf.get("tag").unwrap().get("$value"), Some(&Value::text("apple")));
    let rebuilt = encode_with_template(&bytes, &document, &classes, settings()).unwrap();
    assert_eq!(decode(&rebuilt, &classes, settings()).unwrap(), document);
}

#[test]
fn effects_may_take_the_bytes_of_their_class() {
    let mut data = fields(&[(0, 1, Vec::new())]);
    data[6..10].copy_from_slice(&0_u32.to_le_bytes());
    let words = ["placementTags", "worldCompiledEffectInfo", "Root"];
    let classes = names(&["Root", "worldCompiledEffectInfo"]);
    let mut bytes = package_of(&words, &[(2, data)]);
    assert!(decode(&bytes, &classes, settings()).is_err());
    bytes[1] = 2;
    let document = decode(&bytes, &classes, settings()).unwrap();
    let Some(Value::Array(chunks)) = document.get("Chunks") else {
        panic!("no chunks");
    };
    let effect = chunks[0].get("placementTags").unwrap();
    assert_eq!(effect.get("$type"), Some(&Value::text("worldCompiledEffectInfo")));
    let Some(Value::Array(tags)) = effect.get("placementTags") else {
        panic!("no tags");
    };
    assert_eq!(tags.len(), 1);
    assert_eq!(
        tags[0].get("$value"),
        Some(&Value::text("worldCompiledEffectInfo"))
    );
}

#[test]
fn values_in_the_table_of_their_class_come_back() {
    let mut data = fields(&[(1, 2, Vec::new())]);
    data[6..10].copy_from_slice(&0_u32.to_le_bytes());
    let bytes = package_of(&["Root", "count", "Uint16"], &[(0, data)]);
    let classes = names(&["Root"]);
    let document = decode(&bytes, &classes, settings()).unwrap();
    let Some(Value::Array(chunks)) = document.get("Chunks") else {
        panic!("no chunks");
    };
    assert_eq!(chunks[0].get("count"), Some(&Value::integer(1)));
    let rebuilt = encode_with_template(&bytes, &document, &classes, settings()).unwrap();
    assert_eq!(decode(&rebuilt, &classes, settings()).unwrap(), document);
}

#[test]
fn handles_under_one_name_do_not_come_back() {
    let leaf = |number: u8| (4, fields(&[(5, 6, vec![number])]));
    let bytes = package_of(
        &["Root", "next", "handle:Leaf", "", "Leaf", "number", "Uint8"],
        &[
            (
                0,
                fields(&[
                    (1, 2, 1_i32.to_le_bytes().to_vec()),
                    (1, 2, 2_i32.to_le_bytes().to_vec()),
                ]),
            ),
            leaf(7),
            leaf(8),
        ],
    );
    let classes = names(&["Root", "Leaf"]);
    let document = decode(&bytes, &classes, settings()).unwrap();
    let rebuilt = encode_with_template(&bytes, &document, &classes, settings()).unwrap();
    assert_ne!(decode(&rebuilt, &classes, settings()).unwrap(), document);
}

#[test]
fn hidden_chunks_that_end_in_their_table_do_not_come_back() {
    let mut shown = fields(&[(0, 0, Vec::new())]);
    shown[6..10].copy_from_slice(&0_u32.to_le_bytes());
    let bytes = package_of(
        &["Uint16", "x", "y", "handle:Leaf", "Leaf"],
        &[
            (4, vec![1, 0]),
            (4, shown),
            (
                4,
                fields(&[
                    (1, 3, 2_i32.to_le_bytes().to_vec()),
                    (2, 3, 0_i32.to_le_bytes().to_vec()),
                ]),
            ),
        ],
    );
    let classes = names(&["Leaf"]);
    let document = decode(&bytes, &classes, settings()).unwrap();
    let rebuilt = encode_with_template(&bytes, &document, &classes, settings()).unwrap();
    assert!(decode(&rebuilt, &classes, settings()).is_err());
}

#[test]
fn sized_classes_with_fields_do_not_come_back() {
    let mut inner = fields(&[(3, 4, vec![0, 0, 0, 0, 5, 0])]);
    inner[6..10].copy_from_slice(&14_u32.to_le_bytes());
    let bytes = package_of(
        &["Root", "id", "CGUID", "kind", "Kind", "first"],
        &[(0, fields(&[(1, 2, inner)]))],
    );
    let classes = names(&["CGUID", "Root"]);
    let document = decode(&bytes, &classes, settings()).unwrap();
    let rebuilt = encode_with_template(&bytes, &document, &classes, settings()).unwrap();
    assert!(decode(&rebuilt, &classes, settings()).is_err());
}

#[test]
fn floats_that_are_no_numbers_are_nothing() {
    let words = ["Root", "single", "Float", "double", "Double"];
    let of = |single: f32, double: f64| {
        package_of(
            &words,
            &[(
                0,
                fields(&[
                    (1, 2, single.to_le_bytes().to_vec()),
                    (3, 4, double.to_le_bytes().to_vec()),
                ]),
            )],
        )
    };
    let classes = names(&["Root"]);
    let chunk = |document: &Value, name: &str| {
        let Some(Value::Array(chunks)) = document.get("Chunks") else {
            panic!("no chunks");
        };
        chunks[0].get(name).unwrap().copy()
    };
    let bytes = of(1.5, -0.25);
    let document = decode(&bytes, &classes, settings()).unwrap();
    assert_eq!(chunk(&document, "single"), Value::single(1.5_f32.to_bits()));
    assert_eq!(chunk(&document, "double"), Value::double((-0.25_f64).to_bits()));
    let rebuilt = encode_with_template(&bytes, &document, &classes, settings()).unwrap();
    assert_eq!(decode(&rebuilt, &classes, settings()).unwrap(), document);
    let bytes = of(f32::NAN, f64::NEG_INFINITY);
    let document = decode(&bytes, &classes, settings()).unwrap();
    assert_eq!(chunk(&document, "single"), Value::Null);
    assert_eq!(chunk(&document, "double"), Value::Null);
    assert_eq!(
        encode_with_template(&bytes, &document, &classes, settings())
            .unwrap_err()
            .describe(),
        "malformed RedPackage at byte 106: Float JSON"
    );
}

#[test]
fn changed_packages_hold_the_change() {
    let classes = names(&["Root"]);
    let document = decode(&package(6), &classes, settings()).unwrap();
    let rebuilt = encode_with_template(&package(5), &document, &classes, settings()).unwrap();
    assert_eq!(decode(&rebuilt, &classes, settings()).unwrap(), document);
}

#[test]
fn broken_packages_are_rejected() {
    assert_eq!(
        decode(&[9, 0, 6, 0], &Vec::new(), settings()),
        Err(PackageError::Malformed {
            offset: 0,
            reason: "version"
        })
    );
    assert_eq!(
        decode(&[4, 0, 5, 0], &Vec::new(), settings()),
        Err(PackageError::Malformed {
            offset: 2,
            reason: "section count"
        })
    );
    let error = encode_with_template(&package(1), &Value::Null, &Vec::new(), settings());
    assert_eq!(
        error.unwrap_err().describe(),
        "malformed RedPackage at byte 0: package Chunks"
    );
    let data = object(vec![("Chunks", Value::Array(Vec::new()))]);
    assert!(matches!(
        encode_with_template(&package(1), &data, &Vec::new(), settings()),
        Err(PackageError::Unsupported(_))
    ));
}

#[test]
fn written_entries_come_back() {
    let template = localization_template();
    assert_eq!(read_entries(&template).unwrap().len(), 0);
    let long = "x".repeat(300);
    let bytes = write_entries(&template, &[entry("Hello", "key"), entry(&long, "")]).unwrap();
    let entries = read_entries(&bytes).unwrap();
    assert_eq!(entries.len(), 2);
    assert_eq!(entries[0].female_variant, "Hello");
    assert_eq!(entries[0].secondary_key, "key");
    assert_eq!(entries[1].female_variant, long);
    assert_eq!(entries[1].primary_key, "0");
}

#[test]
fn lengths_are_cut_to_a_word() {
    assert_eq!(read_vlq(&[0x85]), Ok((true, 5, 1)));
    assert_eq!(read_vlq(&[0x45, 0x81, 0x02]), Ok((false, 5 + 64 + 128 * 128, 3)));
    assert_eq!(read_vlq(&[0x45, 0x81]), Err(LocalizationError::Unsupported(Layout::TruncatedLength)));
    let mut long = vec![0x45];
    long.extend([0x80; 8]);
    long.push(0x04);
    assert_eq!(read_vlq(&long), Ok((false, 5, 10)));
    long[9] = 0x80;
    long.push(0x01);
    assert_eq!(read_vlq(&long), Ok((false, usize::MAX, 11)));
}

#[test]
fn the_type_of_an_entry_is_not_written() {
    let template = localization_template();
    let mut other = entry("Hello", "key");
    other.red_type = "somethingElse".to_owned();
    let bytes = write_entries(&template, &[other]).unwrap();
    assert_eq!(bytes, write_entries(&template, &[entry("Hello", "key")]).unwrap());
    let entries = read_entries(&bytes).unwrap();
    assert_eq!(entries[0].red_type, "localizationPersistenceOnScreenEntry");
    assert_eq!(entries[0].female_variant, "Hello");
}

#[test]
fn written_entries_carry_checksums() {
    let bytes = write_entries(&localization_template(), &[entry("Hello", "")]).unwrap();
    let word = |at: usize| u32::from_le_bytes(bytes[at..at + 4].try_into().unwrap());
    let table = word(TABLES + 48) as usize;
    assert_eq!(word(TABLES + 56), crc32fast::hash(&bytes[table..table + 48]));
    let mut header = bytes[..TABLES + 120].to_vec();
    header[32..36].copy_from_slice(&0xdead_beef_u32.to_le_bytes());
    assert_eq!(word(32), crc32fast::hash(&header));
    assert_eq!(word(24) as usize, bytes.len());
}

#[test]
fn foreign_localization_is_rejected() {
    let one = resource(&["Root"], &[(1, class(&[]))]);
    assert_eq!(
        read_entries(&one).unwrap_err(),
        LocalizationError::Unsupported(Layout::UnexpectedExports)
    );
    assert_eq!(
        write_entries(&one, &[]).unwrap_err(),
        LocalizationError::Unsupported(Layout::TemplateExportCount)
    );
    let mut keyed = entry("a", "");
    keyed.primary_key = "5".to_owned();
    assert_eq!(
        write_entries(&localization_template(), &[keyed]).unwrap_err(),
        LocalizationError::Unsupported(Layout::NonzeroPrimaryKey)
    );
    assert!(matches!(
        read_entries(b"RIFF"),
        Err(LocalizationError::Cr2w(_))
    ));
}

#[test]
fn loads_official_redmod_metadata() {
    let schema = from_metadata(RedmodMetadata {
        simple_types: names(&["Int32"]),
        classes: vec![official("Derived", "Base", "ExampleMode")],
        enums: names(&["ExampleMode"]),
        bitfields: names(&["ExampleFlags"]),
        aliases: vec![("OldDerived".to_owned(), "Derived".to_owned())],
    });

    let property = found(&found(&schema.classes, "Derived").properties, "mode");
    assert_eq!(property.red_type.as_deref(), Some("ExampleMode"));
    assert_eq!(property.offset, Some(4));
    assert_eq!(property.flags, Some(17));
    assert!(schema.enums.contains(&"ExampleMode".to_owned()));
    assert!(schema.bitfields.contains(&"ExampleFlags".to_owned()));
    assert_eq!(found(&schema.aliases, "OldDerived"), "Derived");
    assert!(schema.class_names().contains(&"OldDerived".to_owned()));
}

#[test]
fn official_overlay_preserves_legacy_only_classes_and_properties() {
    let mut schema = RedSchema::default();
    schema.classes = vec![
        (
            "LegacyOnly".to_owned(),
            RedClass {
                base: None,
                ..legacy("", &[])
            },
        ),
        (
            "Shared".to_owned(),
            legacy(
                "LegacyBase",
                &[("legacyProperty", "CInt32"), ("mode", "LegacyMode")],
            ),
        ),
    ];
    let overlay = from_metadata(RedmodMetadata {
        simple_types: Vec::new(),
        classes: vec![official("Shared", "OfficialBase", "OfficialMode")],
        enums: names(&["OfficialMode"]),
        bitfields: Vec::new(),
        aliases: Vec::new(),
    });

    schema.merge(overlay);

    assert!(schema.classes.iter().any(|(name, _)| name == "LegacyOnly"));
    let shared = found(&schema.classes, "Shared");
    assert_eq!(shared.base.as_deref(), Some("OfficialBase"));
    assert!(shared
        .properties
        .iter()
        .any(|(name, _)| name == "legacyProperty"));
    assert_eq!(
        found(&shared.properties, "mode").red_type.as_deref(),
        Some("OfficialMode")
    );
}

#[test]
fn classes_are_read_out_of_sources() {
    let source = "namespace X\n{\n [RED(\"gameThing\")]\n public partial class Thing : Base\n {\n\
        [Ordinal(3)]\n [RED(\"someValue\")]\n public CArray<  CInt32 > SomeValue {\n get; }\n";
    let (name, class) = read_class(source).unwrap().unwrap();
    assert_eq!(name, "gameThing");
    assert_eq!(class.base.as_deref(), Some("Base"));
    let property = found(&class.properties, "someValue");
    assert_eq!(property.cs_type, "CArray< CInt32 >");
    assert_eq!(property.ordinal, Some(3));
    assert!(read_class("nothing here").unwrap().is_none());
}

#[test]
fn parts_of_classes_are_put_together() {
    let mut classes = Vec::new();
    for source in [
        "public partial class Thing\n{ [RED(\"a\")] public CInt32 A { get; }",
        "public partial class Thing : Base\n{ [RED(\"b\")] public CInt32 B { get; }",
        "public class Another { }",
    ] {
        let (name, class) = read_class(source).unwrap().unwrap();
        add_class(&mut classes, name, class);
    }
    assert_eq!(classes.len(), 2);
    assert_eq!(classes[0].0, "Another");
    assert_eq!(classes[1].1.base.as_deref(), Some("Base"));
    assert_eq!(classes[1].1.properties.len(), 2);
}
