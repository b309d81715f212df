//! Audits, their summaries, and batches of exports.

use ghostline_red::archive::ArchiveEntry;
use ghostline_red::audit::{
    audit_file, audit_rebuilt, entry_ranges, hash_text, parse_hash, read_main_if_cr2w, root_type,
    tail_text, AuditState, Detail, Oracle, Rebuild,
};
use ghostline_red::audit_page::render_markdown;
use ghostline_red::audit_report::{merge_summary, merge_types, Summary, TypeSummary};
use ghostline_red::audit_summary::{consolidate, percent, truncate, ShardFailure, ShardReport};
use ghostline_red::batch::{
    batch_status, classify_material_export_error, fatal_mesh_export_error, find_collision,
    is_first_problem, mesh_export_batch_outcome_counts, mesh_export_output_collision_key,
    should_report_batch_progress, MeshExportBatchErrors,
};
use ghostline_red::difference::{first_difference, Seen};
use ghostline_red::kraken;
use ghostline_red::value::Value;

fn object(entries: Vec<(&str, Value)>) -> Value {
    Value::Object(
        entries
            .into_iter()
            .map(|(key, value)| (key.to_owned(), value))
            .collect(),
    )
}

fn keys(paths: &[&str]) -> Vec<String> {
    paths
        .iter()
        .map(|path| mesh_export_output_collision_key(path, false))
        .collect()
}

fn document(name: &str, content: i128) -> Value {
    object(vec![(
        "Data",
        object(vec![(
            "RootChunk",
            object(vec![
                ("$type", Value::text(name)),
                ("value", Value::integer(content)),
            ]),
        )]),
    )])
}

#[test]
fn first_difference_reports_nested_array_member() {
    let expected = object(vec![(
        "root",
        Value::Array(vec![object(vec![("value", Value::integer(1))])]),
    )]);
    let actual = object(vec![(
        "root",
        Value::Array(vec![object(vec![("value", Value::integer(2))])]),
    )]);
    let difference = first_difference(Some(&expected), Some(&actual), "$").unwrap();
    assert_eq!(difference.path, "$.root[0].value");
    assert_eq!(difference.expected.compact().unwrap(), "1");
    assert_eq!(difference.actual.compact().unwrap(), "2");
}

#[test]
fn first_difference_ignores_object_key_order() {
    let expected = object(vec![
        ("first", Value::integer(1)),
        ("second", Value::integer(2)),
    ]);
    let actual = object(vec![
        ("second", Value::integer(2)),
        ("first", Value::integer(1)),
    ]);
    assert!(first_difference(Some(&expected), Some(&actual), "$").is_none());
}

#[test]
fn first_difference_sees_missing_members_and_lengths() {
    let expected = object(vec![("a", Value::Null)]);
    let actual = object(vec![]);
    let difference = first_difference(Some(&expected), Some(&actual), "$").unwrap();
    assert_eq!(difference.path, "$.a");
    assert_eq!(difference.actual, Seen::Missing);
    assert_eq!(difference.actual.compact().unwrap(), "<missing>");
    let long = Value::Array(vec![Value::Null]);
    let short = Value::Array(vec![]);
    let difference = first_difference(Some(&short), Some(&long), "$").unwrap();
    assert_eq!(difference.expected.compact().unwrap(), "array length 0");
    assert_eq!(difference.actual.compact().unwrap(), "array length 1");
}

#[test]
fn parse_hash_accepts_decimal_and_hexadecimal() {
    assert_eq!(parse_hash("42").unwrap(), 42);
    assert_eq!(parse_hash("0x2a").unwrap(), 42);
    assert_eq!(parse_hash("000000000000002a").unwrap(), 42);
}

#[test]
fn parse_hash_ignores_blanks_around() {
    assert_eq!(parse_hash("  42\n"), Some(42));
    assert_eq!(parse_hash("x"), None);
    assert_eq!(hash_text(0x2a), "000000000000002a");
}

#[test]
fn truncation_respects_character_boundaries() {
    assert_eq!(truncate("aé日", 2), "aé…");
    assert_eq!(truncate("short", 10), "short");
}

#[test]
fn percentage_handles_empty_denominator() {
    assert_eq!(percent(1, 4), "25.00%");
    assert_eq!(percent(0, 0), "n/a");
}

#[test]
fn percentages_are_rounded() {
    assert_eq!(percent(1, 3), "33.33%");
    assert_eq!(percent(2, 3), "66.67%");
    assert_eq!(percent(3, 3), "100.00%");
}

#[test]
fn equal_documents_count_as_equal() {
    let outcome = audit_file(
        0x2a,
        &Oracle::Document(document("Root", 1)),
        &Ok(document("Root", 1)),
        &Rebuild::Exact,
    );
    assert_eq!(outcome.summary.wolvenkit_serialized, 1);
    assert_eq!(outcome.summary.ghostline_serialized, 1);
    assert_eq!(outcome.summary.serialize_data_equal, 1);
    assert_eq!(outcome.summary.ghostline_from_wolvenkit_exact_original, 1);
    assert!(outcome.failures.is_empty());
    assert_eq!(outcome.types[0].0, "Root");
}

#[test]
fn different_documents_are_reported() {
    let outcome = audit_file(
        0x2a,
        &Oracle::Document(document("Root", 1)),
        &Ok(document("Root", 2)),
        &Rebuild::Different,
    );
    assert_eq!(outcome.summary.serialize_data_equal, 0);
    assert_eq!(outcome.failures.len(), 2);
    assert_eq!(outcome.failures[0].name_hash, "000000000000002a");
    assert_eq!(outcome.failures[0].phase, "serialize_data_diff");
    assert_eq!(
        outcome.failures[1].phase,
        "ghostline_deserialize_wolvenkit_binary_diff"
    );
    assert!(matches!(
        &outcome.failures[0].detail,
        Detail::Difference(found) if found.path == "$.Data.RootChunk.value"
    ));
}

#[test]
fn missing_and_failed_documents_are_reported() {
    let outcome = audit_file(
        1,
        &Oracle::Missing,
        &Err("broken".to_owned()),
        &Rebuild::Failed("no".to_owned()),
    );
    assert_eq!(outcome.summary.wolvenkit_serialized, 0);
    assert!(!outcome.failures.is_empty());
    let again = audit_rebuilt(
        "000000000000002a",
        &Oracle::Document(document("Root", 1)),
        &Oracle::Document(document("Root", 1)),
        true,
    );
    assert_eq!(again.summary.deserialize_data_equal, 1);
}

#[test]
fn states_gather_outcomes() {
    let mut state = AuditState::new(5, 2, Vec::new());
    assert_eq!(state.summary.archive_entries, 5);
    for content in [1, 2] {
        state.add(audit_file(
            content as u64,
            &Oracle::Document(document("Root", content)),
            &Ok(document("Root", 1)),
            &Rebuild::Exact,
        ));
    }
    assert_eq!(state.summary.serialize_data_equal, 1);
    assert_eq!(state.failures.len(), 1);
    assert_eq!(state.types.len(), 1);
    assert_eq!(state.types[0].1.files, 2);
}

#[test]
fn the_root_type_is_found() {
    assert_eq!(root_type(&document("CMesh", 1)), Some("CMesh".to_owned()));
    assert_eq!(root_type(&Value::Null), None);
}

#[test]
fn shards_cover_all_entries() {
    let entry = |hash: u64| ArchiveEntry {
        name_hash: hash,
        timestamp_filetime: 0,
        inline_buffer_segments: 0,
        segments_start: 0,
        segments_end: 0,
        dependencies_start: 0,
        dependencies_end: 0,
        sha1: String::new(),
        compressed_size: 0,
        size: 0,
    };
    let list: Vec<ArchiveEntry> = (0..5).map(entry).collect();
    assert_eq!(
        entry_ranges(&list, &Vec::new(), 2),
        vec![(0, 2), (2, 4), (4, 5)]
    );
    assert_eq!(entry_ranges(&list, &vec![3], 2), vec![(3, 4)]);
}

#[test]
fn tails_and_resources_are_read() {
    assert_eq!(tail_text(b"end"), "end");
    assert_eq!(tail_text(b"a\xffb"), "a\u{fffd}b");
    let mut resource = b"CR2W".to_vec();
    resource.extend(vec![7; 600]);
    assert_eq!(
        read_main_if_cr2w(&resource).unwrap(),
        Some(resource.clone())
    );
    assert_eq!(read_main_if_cr2w(b"other").unwrap(), None);
    let mut framed = b"KARK".to_vec();
    framed.extend((resource.len() as u32).to_le_bytes());
    framed.extend(kraken::encode(&resource));
    assert_eq!(read_main_if_cr2w(&framed).unwrap(), Some(resource));
}

#[test]
fn merged_counts_do_not_depend_on_order() {
    let one = Summary {
        cr2w_files: 3,
        serialize_data_equal: 1,
        ..Summary::default()
    };
    let two = Summary {
        cr2w_files: 4,
        ..Summary::default()
    };
    let mut left = Summary::default();
    merge_summary(&mut left, &one);
    merge_summary(&mut left, &two);
    let mut right = Summary::default();
    merge_summary(&mut right, &two);
    merge_summary(&mut right, &one);
    assert_eq!(left, right);
    assert_eq!(left.cr2w_files, 7);
    let mut types = Vec::new();
    let found = vec![(
        "Root".to_owned(),
        TypeSummary {
            files: 2,
            ..TypeSummary::default()
        },
    )];
    merge_types(&mut types, &found, true);
    merge_types(&mut types, &found, true);
    assert_eq!(types.len(), 1);
    assert_eq!(types[0].1.files, 4);
}

#[test]
fn reports_are_consolidated_and_rendered() {
    let shard = |archive: &str, phase: &str| ShardReport {
        archive: archive.to_owned(),
        summary: Summary {
            archive_entries: 2,
            cr2w_files: 2,
            wolvenkit_serialized: 2,
            ghostline_serialized: 1,
            ..Summary::default()
        },
        types: vec![(
            "CMesh".to_owned(),
            TypeSummary {
                files: 2,
                ..TypeSummary::default()
            },
        )],
        failures: vec![ShardFailure {
            name_hash: "01".to_owned(),
            phase: phase.to_owned(),
            root_type: Some("CMesh".to_owned()),
            detail: "detail".to_owned(),
        }],
    };
    let report = consolidate(&vec![
        shard("one.archive", "serialize"),
        shard("two.archive", "serialize"),
    ]);
    assert_eq!(report.shard_reports, 2);
    assert_eq!(report.totals.cr2w_files, 4);
    assert_eq!(report.archives.len(), 2);
    assert_eq!(report.failure_phases, vec![("serialize".to_owned(), 2)]);
    assert_eq!(report.types[0].1.files, 4);
    assert_eq!(report.examples[0].1.list.len(), 2);
    let page = render_markdown(&report);
    assert!(page.starts_with("# "));
    assert!(page.contains("CMesh"));
    assert!(page.contains("one.archive"));
}

#[test]
fn batch_progress_should_report_first_last_and_each_hundredth_job() {
    let positions = (1..=250)
        .filter(|position| should_report_batch_progress(*position, 250))
        .collect::<Vec<_>>();

    assert_eq!(positions, vec![1, 100, 200, 250]);
}

#[test]
fn batch_outcome_counts_should_separate_fatal_failures_and_material_warnings() {
    let outcomes = vec![
        MeshExportBatchErrors {
            error: None,
            material_error: None,
        },
        MeshExportBatchErrors {
            error: None,
            material_error: Some("malformed material".to_owned()),
        },
        MeshExportBatchErrors {
            error: Some("archive read failed".to_owned()),
            material_error: None,
        },
    ];

    assert_eq!(mesh_export_batch_outcome_counts(&outcomes), (1, 1));
}

#[test]
fn pbr_material_failure_should_remain_fatal() {
    let errors =
        classify_material_export_error("missing texture dependency", "tile.Material.json", None, true);

    assert_eq!(
        errors,
        MeshExportBatchErrors {
            error: Some("missing texture dependency".to_owned()),
            material_error: None,
        }
    );
}

#[test]
fn non_pbr_material_failure_is_a_warning() {
    assert_eq!(
        classify_material_export_error("malformed material data", "tile.Material.json", None, false),
        MeshExportBatchErrors {
            error: None,
            material_error: Some("malformed material data".to_owned()),
        }
    );
    assert_eq!(
        classify_material_export_error("bad", "tile.Material.json", Some("denied"), false)
            .material_error
            .unwrap(),
        "bad; failed to remove incomplete material sidecar tile.Material.json: denied"
    );
    assert_eq!(
        fatal_mesh_export_error("bad").error,
        Some("bad".to_owned())
    );
}

#[test]
fn batch_outputs_should_reject_lexically_equivalent_glb_paths() {
    let found = keys(&[
        "/w/catalog/tile.glb",
        "/w/catalog/tile.Material.json",
        "/w/catalog/nested/../tile.glb",
        "/w/catalog/nested/../tile.Material.json",
    ]);
    assert_eq!(find_collision(&found), Some((0, 2)));
}

#[test]
fn batch_outputs_should_reject_shared_material_sidecar_paths() {
    let found = keys(&[
        "/w/catalog/tile.glb",
        "/w/catalog/tile.Material.json",
        "/w/catalog/tile.gltf",
        "/w/catalog/tile.Material.json",
    ]);
    assert_eq!(find_collision(&found), Some((1, 3)));
}

#[test]
fn case_counts_unless_ignored() {
    let upper = mesh_export_output_collision_key("/w/catalog/TILE.glb", true);
    let lower = mesh_export_output_collision_key("/w/CATALOG/tile.glb", true);
    assert_eq!(upper, lower);
    assert_ne!(
        mesh_export_output_collision_key("/w/TILE.glb", false),
        mesh_export_output_collision_key("/w/tile.glb", false)
    );
    assert_eq!(find_collision(&keys(&["/a", "/b"])), None);
}

#[test]
fn progress_lines_say_what_happened() {
    assert_eq!(batch_status(true, true), "failed");
    assert_eq!(batch_status(false, true), "material warning");
    assert_eq!(batch_status(false, false), "complete");
    assert!(is_first_problem(true, 1, false, 0));
    assert!(!is_first_problem(true, 2, false, 0));
    assert!(is_first_problem(false, 0, true, 1));
}
