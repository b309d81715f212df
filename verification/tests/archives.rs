//! Archives: reading, packing and finding resources.

use ghostline_red::archive::{
    decode_custom_paths, depot_path_hash, read_archive, read_stored_table, resolve_path,
    safe_depot_path, ArchiveError, ArchiveSegment, RawEntry, EXTENDED_HEADER_SIZE,
};
use ghostline_red::archive_frames::{
    parse_compression_batch, read_batch, read_payload, read_segment, write_batch, write_payload,
    SegmentContent,
};
use ghostline_red::archive_pack::{compress_payload, main_payload, pack, PackFile};
use ghostline_red::archive_set::ArchiveSet;
use ghostline_red::archive_writer::{
    align_if_needed, build_index_bytes, crc64, is_skipped_extension, should_store_uncompressed,
    write_lxrs,
};
use ghostline_red::binary::{
    read_i64_le, read_u16_le, read_u32_le, read_u64_le, write_i64, write_u16, write_u32, write_u64,
};
use ghostline_red::compression::{checked_size, compressed_buffer_capacity, CompressionError};
use ghostline_red::kraken;

fn file(path: &str, bytes: &[u8]) -> PackFile {
    let compressed = main_payload(path, bytes)
        .unwrap()
        .and_then(|main| compress_payload(&main));
    PackFile {
        depot_path: path.to_owned(),
        bytes: bytes.to_vec(),
        compressed,
    }
}

fn payload<'a>(bytes: &'a [u8], segment: &ArchiveSegment) -> &'a [u8] {
    let start = segment.offset as usize;
    &bytes[start..start + segment.compressed_size as usize]
}

fn ready(content: SegmentContent) -> Vec<u8> {
    match content {
        SegmentContent::Ready(bytes) => bytes,
        SegmentContent::Foreign { .. } => panic!("a foreign segment"),
    }
}

#[test]
fn invalid_magic_should_be_rejected() {
    let error = read_archive(b"NOPE").unwrap_err();
    assert!(matches!(error, ArchiveError::InvalidMagic { .. }));
}

#[test]
fn little_endian_reader_should_decode_values() {
    assert_eq!(
        read_u32_le(&[0x78, 0x56, 0x34, 0x12], 0).unwrap(),
        0x1234_5678
    );
}

#[test]
fn depot_hash_should_normalize_case_and_slashes() {
    let windows = depot_path_hash(r"mod\ghostline\test.ent");
    let portable = depot_path_hash("/MOD/Ghostline//test.ent/");
    assert_eq!(windows, portable);
}

#[test]
fn depot_hash_of_nothing_is_the_basis() {
    assert_eq!(depot_path_hash(""), 0xcbf2_9ce4_8422_2325);
    assert_eq!(depot_path_hash("a"), 0xaf63_dc4c_8601_ec8c);
}

#[test]
fn wolvenkit_capacity_should_scale_beyond_sixty_four_kibibytes() {
    let capacity = compressed_buffer_capacity(12 * 1024 * 1024).unwrap();
    assert!(capacity > 12 * 1024 * 1024 + 64 * 1024);
}

#[test]
fn capacities_and_sizes_are_checked() {
    assert_eq!(
        compressed_buffer_capacity(usize::MAX),
        Err(CompressionError::TooLarge)
    );
    assert_eq!(checked_size(7, 8), Ok(7));
    assert_eq!(
        checked_size(9, 8),
        Err(CompressionError::InvalidSize {
            actual: 9,
            maximum: 8
        })
    );
    assert_eq!(
        checked_size(-1, 8),
        Err(CompressionError::InvalidSize {
            actual: -1,
            maximum: 8
        })
    );
}

#[test]
fn numbers_come_back_as_written() {
    let mut out = Vec::new();
    write_u16(&mut out, 0x1234);
    write_u32(&mut out, 0xdead_beef);
    write_u64(&mut out, 0x0102_0304_0506_0708);
    write_i64(&mut out, -2);
    assert_eq!(out[0], 0x34);
    assert_eq!(read_u16_le(&out, 0), Some(0x1234));
    assert_eq!(read_u32_le(&out, 2), Some(0xdead_beef));
    assert_eq!(read_u64_le(&out, 6), Some(0x0102_0304_0506_0708));
    assert_eq!(read_i64_le(&out, 14), Some(-2));
    assert_eq!(read_u16_le(&out, 21), None);
}

#[test]
fn packed_archives_come_back() {
    let long: Vec<u8> = (0..4096_u32).map(|i| (i % 7) as u8).collect();
    let files = [
        file(r"mod\b\long.mesh", &long),
        file(r"mod\a\short.ent", b"short"),
    ];
    let bytes = pack(&files).unwrap();
    let index = read_archive(&bytes).unwrap();
    assert_eq!(index.header.version, 12);
    assert_eq!(index.header.file_size, bytes.len() as u64);
    assert_eq!(index.entries.len(), 2);
    assert!(index.entries[0].name_hash < index.entries[1].name_hash);
    for (path, content) in [(r"mod\b\long.mesh", &long[..]), (r"mod\a\short.ent", b"short")] {
        let entry = index
            .entries
            .iter()
            .find(|entry| entry.name_hash == depot_path_hash(path))
            .unwrap();
        let mut whole = Vec::new();
        for at in entry.segments_start..entry.segments_end {
            let segment = index.segments[at as usize];
            let first = at == entry.segments_start;
            whole.extend(ready(
                read_segment(payload(&bytes, &segment), segment, first).unwrap(),
            ));
        }
        assert_eq!(whole, content);
        assert_eq!(entry.size, content.len() as u64);
    }
}

#[test]
fn packed_entries_carry_their_digest() {
    let bytes = pack(&[file(r"mod\abc.bin", b"abc")]).unwrap();
    let index = read_archive(&bytes).unwrap();
    assert_eq!(
        index.entries[0].sha1,
        "a9993e364706816aba3e25717850c26c9cd0d89d"
    );
}

#[test]
fn packed_paths_stand_in_the_archive() {
    let bytes = pack(&[file(r"mod\one.bin", b"1"), file(r"mod\two.bin", b"2")]).unwrap();
    let index = read_archive(&bytes).unwrap();
    let hash = depot_path_hash(r"mod\two.bin");
    let at = resolve_path(&index.custom_paths, hash).unwrap();
    assert_eq!(index.custom_paths[at], r"mod\two.bin");
    assert_eq!(
        resolve_path(&index.custom_paths, 1),
        Err(ArchiveError::UnresolvedPath { hash: 1 })
    );
}

#[test]
fn equal_hashes_are_rejected() {
    let files = [file(r"mod\a.bin", b"1"), file(r"MOD\A.bin", b"2")];
    assert!(matches!(
        pack(&files),
        Err(ArchiveError::DuplicateHash { .. })
    ));
}

#[test]
fn escaping_depot_paths_are_rejected() {
    assert_eq!(safe_depot_path(r"base\a.bin"), Ok("base/a.bin".to_owned()));
    assert_eq!(
        safe_depot_path(r"..\a.bin"),
        Err(ArchiveError::InvalidDepotPath)
    );
}

#[test]
fn truncated_archives_are_rejected() {
    let bytes = pack(&[file(r"mod\a.bin", b"1")]).unwrap();
    let index = read_archive(&bytes).unwrap();
    let middle = index.header.index_position as usize + 8;
    assert!(read_archive(&bytes[..middle]).is_err());
    assert_eq!(read_archive(&bytes[..2]).unwrap_err(), ArchiveError::Truncated);
}

#[test]
fn index_bytes_hold_their_checksum() {
    let bytes = build_index_bytes(&[] as &[RawEntry], &[]).unwrap();
    assert!(bytes.len() >= 28);
    assert_eq!(crc64(b"123456789"), 0x995d_c9bb_df19_39fa);
}

#[test]
fn custom_paths_come_back() {
    let paths = vec![r"mod\a.bin".to_owned(), r"mod\b.bin".to_owned()];
    let mut output = Vec::new();
    let size = write_lxrs(&mut output, &paths).unwrap();
    assert_eq!(size as usize, output.len());
    assert_eq!(
        decode_custom_paths(b"mod\\a.bin\0mod\\b.bin\0", 2).unwrap(),
        paths
    );
    assert!(decode_custom_paths(b"mod", 2).is_err());
}

#[test]
fn extensions_decide_how_files_are_stored() {
    assert!(should_store_uncompressed(r"a\b.BK2"));
    assert!(!should_store_uncompressed(r"a\b.mesh"));
    assert!(align_if_needed(r"a\b.bnk"));
    assert!(!align_if_needed(r"a\b.mesh"));
    assert!(is_skipped_extension("TXT"));
    assert!(!is_skipped_extension("mesh"));
}

#[test]
fn batches_and_payloads_come_back() {
    let list = vec![b"one".to_vec(), Vec::new(), b"three".to_vec()];
    let bytes = write_batch(&list);
    assert_eq!(read_batch(&bytes, 3).unwrap(), list);
    assert_eq!(parse_compression_batch(&bytes, 3).unwrap(), list);
    assert!(parse_compression_batch(&bytes, 2).is_none());
    let frame = write_payload(9, b"payload");
    assert_eq!(read_payload(&frame).unwrap(), (9, b"payload".to_vec()));
    assert!(read_payload(&frame[..3]).is_err());
}

#[test]
fn kraken_segments_are_decoded() {
    let content: Vec<u8> = (0..2048_u32).map(|i| (i % 5) as u8).collect();
    let encoded = kraken::encode(&content);
    let mut payload = b"KARK".to_vec();
    payload.extend((content.len() as u32).to_le_bytes());
    payload.extend(&encoded);
    let segment = ArchiveSegment {
        offset: 0,
        compressed_size: payload.len() as u32,
        size: content.len() as u32,
    };
    assert_eq!(
        ready(read_segment(&payload, segment, true).unwrap()),
        content
    );
}

#[test]
fn the_last_archive_wins() {
    let first = read_archive(&pack(&[file(r"mod\a.bin", b"1"), file(r"mod\b.bin", b"1")]).unwrap());
    let second = read_archive(&pack(&[file(r"mod\a.bin", b"2")]).unwrap());
    let set = ArchiveSet::new(vec![first.unwrap(), second.unwrap()]);
    assert_eq!(set.locate(r"MOD/a.bin"), Some((1, 0)));
    assert_eq!(set.locate(r"mod\b.bin").unwrap().0, 0);
    assert_eq!(set.locate(r"mod\c.bin"), None);
    assert_eq!(set.archive(1).entries.len(), 1);
}

#[test]
fn stored_tables_are_found() {
    let mut bytes = vec![0_u8; EXTENDED_HEADER_SIZE];
    let paths = vec![r"mod\a.bin".to_owned(), r"mod\b.bin".to_owned()];
    write_lxrs(&mut bytes, &paths).unwrap();
    let (size, count, table) = read_stored_table(&bytes).unwrap();
    assert_eq!((size, count), (20, 2));
    assert_eq!(table, &bytes[EXTENDED_HEADER_SIZE + 20..]);
    assert_eq!(
        read_stored_table(&bytes[..EXTENDED_HEADER_SIZE + 19]).unwrap_err(),
        ArchiveError::Truncated
    );
    bytes[EXTENDED_HEADER_SIZE] = 0;
    assert_eq!(
        read_stored_table(&bytes).unwrap_err(),
        ArchiveError::InvalidIndex
    );
}
