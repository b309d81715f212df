//! What is packed into an archive is found in it again.

use crate::archive;
use crate::archive::{ArchiveError, ArchiveModel, ArchiveSegment, RawModel};
use crate::archive::{ARCHIVE_MAGIC, EXTENDED_HEADER_SIZE, LXRS_MAGIC};
use crate::archive_pack;
use crate::archive_pack::{PackModel, PackState};
use crate::archive_writer;
use crate::binary;
use crate::sequence;
use crate::text;
use vstd::prelude::*;
use vstd::utf8;

verus! {

// ---------------------------------------------------------------------------
// Tables
// ---------------------------------------------------------------------------

proof fn lemma_field(bytes: Seq<u8>, at: nat, value: nat, count: nat)
    requires
        value < binary::byte_range(count),
        sequence::stands(bytes, at, binary::le_bytes(value, count)),
    ensures
        archive::field(bytes, at, count) == value,
{
    binary::lemma_number_stands(bytes, at, value, count);
}

/// A number that is followed by more.
proof fn lemma_take(bytes: Seq<u8>, at: nat, value: nat, count: nat, rest: Seq<u8>)
    requires
        value < binary::byte_range(count),
        sequence::stands(bytes, at, binary::le_bytes(value, count) + rest),
    ensures
        archive::field(bytes, at, count) == value,
        sequence::stands(bytes, at + count, rest),
{
    sequence::lemma_stands_split(bytes, at, binary::le_bytes(value, count), rest);
    binary::lemma_le_bytes_len(value, count);
    lemma_field(bytes, at, value, count);
}

/// An entry is read back.
proof fn lemma_read_entry(bytes: Seq<u8>, at: nat, entry: RawModel)
    requires
        entry.sha1.len() == 20,
        sequence::stands(bytes, at, archive_writer::entry_bytes(entry)),
    ensures
        archive::raw_entry_at(bytes, at) == entry,
        archive_writer::entry_bytes(entry).len() == 56,
{
    binary::lemma_byte_ranges();
    let stamp = binary::unsigned64(entry.timestamp_filetime as int);
    let a = binary::le_bytes(entry.name_hash as nat, 8);
    let b = binary::le_bytes(stamp, 8);
    let c = binary::le_bytes(entry.inline_buffer_segments as nat, 4);
    let d = binary::le_bytes(entry.segments_start as nat, 4);
    let e = binary::le_bytes(entry.segments_end as nat, 4);
    let f = binary::le_bytes(entry.dependencies_start as nat, 4);
    let g = binary::le_bytes(entry.dependencies_end as nat, 4);
    let h = entry.sha1;
    binary::lemma_le_bytes_len(entry.name_hash as nat, 8);
    binary::lemma_le_bytes_len(stamp, 8);
    binary::lemma_le_bytes_len(entry.inline_buffer_segments as nat, 4);
    binary::lemma_le_bytes_len(entry.segments_start as nat, 4);
    binary::lemma_le_bytes_len(entry.segments_end as nat, 4);
    binary::lemma_le_bytes_len(entry.dependencies_start as nat, 4);
    binary::lemma_le_bytes_len(entry.dependencies_end as nat, 4);
    assert(archive_writer::entry_bytes(entry) =~= a + (b + (c + (d + (e + (f + (g + h)))))));
    lemma_take(bytes, at, entry.name_hash as nat, 8, b + (c + (d + (e + (f + (g + h))))));
    lemma_take(bytes, at + 8, stamp, 8, c + (d + (e + (f + (g + h)))));
    lemma_take(
        bytes,
        at + 16,
        entry.inline_buffer_segments as nat,
        4,
        d + (e + (f + (g + h))),
    );
    lemma_take(bytes, at + 20, entry.segments_start as nat, 4, e + (f + (g + h)));
    lemma_take(bytes, at + 24, entry.segments_end as nat, 4, f + (g + h));
    lemma_take(bytes, at + 28, entry.dependencies_start as nat, 4, g + h);
    lemma_take(bytes, at + 32, entry.dependencies_end as nat, 4, h);
}

/// A segment is read back.
proof fn lemma_read_segment(bytes: Seq<u8>, at: nat, segment: ArchiveSegment)
    requires
        sequence::stands(bytes, at, archive_writer::segment_bytes(segment)),
    ensures
        archive::segment_at(bytes, at) == segment,
        archive_writer::segment_bytes(segment).len() == 16,
{
    binary::lemma_byte_ranges();
    let a = binary::le_bytes(segment.offset as nat, 8);
    let b = binary::le_bytes(segment.compressed_size as nat, 4);
    let c = binary::le_bytes(segment.size as nat, 4);
    binary::lemma_le_bytes_len(segment.offset as nat, 8);
    binary::lemma_le_bytes_len(segment.compressed_size as nat, 4);
    binary::lemma_le_bytes_len(segment.size as nat, 4);
    assert(archive_writer::segment_bytes(segment) =~= a + (b + c));
    lemma_take(bytes, at, segment.offset as nat, 8, b + c);
    lemma_take(bytes, at + 8, segment.compressed_size as nat, 4, c);
    lemma_field(bytes, at + 12, segment.size as nat, 4);
}

/// Every digest has twenty bytes.
pub open spec fn digests_ok(entries: Seq<RawModel>) -> bool {
    forall|i: int| 0 <= i < entries.len() ==> (#[trigger] entries[i]).sha1.len() == 20
}

/// The file table is read back.
proof fn lemma_read_entries(bytes: Seq<u8>, at: nat, entries: Seq<RawModel>)
    requires
        digests_ok(entries),
        sequence::stands(bytes, at, archive_writer::entry_table(entries)),
    ensures
        archive::raw_entries(bytes, at, entries.len()) == entries,
        archive_writer::entry_table(entries).len() == 56 * entries.len(),
    decreases entries.len(),
{
    if entries.len() == 0 {
        assert(archive::raw_entries(bytes, at, 0) =~= entries);
    } else {
        let front = entries.drop_last();
        let n = front.len();
        sequence::lemma_stands_split(
            bytes,
            at,
            archive_writer::entry_table(front),
            archive_writer::entry_bytes(entries.last()),
        );
        assert forall|i: int| 0 <= i < front.len() implies (#[trigger] front[i]).sha1.len()
            == 20 by {
            assert(front[i] == entries[i]);
        }
        lemma_read_entries(bytes, at, front);
        lemma_read_entry(bytes, at + 56 * n, entries.last());
        let found = archive::raw_entries(bytes, at, entries.len());
        assert forall|i: int| 0 <= i < entries.len() implies found[i] == entries[i] by {
            if i < n {
                assert(archive::raw_entries(bytes, at, n)[i] == front[i]);
            }
        }
        assert(found =~= entries);
    }
}

/// The segment table is read back.
proof fn lemma_read_segments(bytes: Seq<u8>, at: nat, segments: Seq<ArchiveSegment>)
    requires
        sequence::stands(bytes, at, archive_writer::segment_table(segments)),
    ensures
        archive::segments_from(bytes, at, segments.len()) == segments,
        archive_writer::segment_table(segments).len() == 16 * segments.len(),
    decreases segments.len(),
{
    if segments.len() == 0 {
        assert(archive::segments_from(bytes, at, 0) =~= segments);
    } else {
        let front = segments.drop_last();
        let n = front.len();
        sequence::lemma_stands_split(
            bytes,
            at,
            archive_writer::segment_table(front),
            archive_writer::segment_bytes(segments.last()),
        );
        lemma_read_segments(bytes, at, front);
        lemma_read_segment(bytes, at + 16 * n, segments.last());
        let found = archive::segments_from(bytes, at, segments.len());
        assert forall|i: int| 0 <= i < segments.len() implies found[i] == segments[i] by {
            if i < n {
                assert(archive::segments_from(bytes, at, n)[i] == front[i]);
            }
        }
        assert(found =~= segments);
    }
}

/// The index is read back.
pub proof fn law_read_index(
    bytes: Seq<u8>,
    at: nat,
    entries: Seq<RawModel>,
    segments: Seq<ArchiveSegment>,
)
    requires
        digests_ok(entries),
        archive_writer::index_fits(entries, segments),
        sequence::stands(bytes, at, archive_writer::index_bytes(entries, segments)),
    ensures
        archive::field(bytes, at + 16, 4) == entries.len(),
        archive::field(bytes, at + 20, 4) == segments.len(),
        archive::field(bytes, at + 24, 4) == 0,
        archive::raw_entries(bytes, at + 28, entries.len()) == entries,
        archive::segments_from(bytes, at + 28 + 56 * entries.len(), segments.len()) == segments,
        archive_writer::index_bytes(entries, segments).len() == archive::tables_size(
            entries.len(),
            segments.len(),
            0,
        ),
        archive::field(bytes, at, 4) == 8,
        archive::field(bytes, at + 4, 4) == archive_writer::index_body(entries, segments).len() + 8,
        archive::field(bytes, at + 8, 8) == archive_writer::crc64_of(
            archive_writer::index_body(entries, segments),
        ),
{
    binary::lemma_byte_ranges();
    let body = archive_writer::index_body(entries, segments);
    let crc = archive_writer::crc64_of(body) as nat;
    let a = binary::le_bytes(8, 4);
    let b = binary::le_bytes(body.len() + 8, 4);
    let c = binary::le_bytes(crc, 8);
    binary::lemma_le_bytes_len(8, 4);
    binary::lemma_le_bytes_len(body.len() + 8, 4);
    binary::lemma_le_bytes_len(crc, 8);
    assert(archive_writer::index_bytes(entries, segments) =~= a + (b + (c + body)));
    lemma_take(bytes, at, 8, 4, b + (c + body));
    lemma_take(bytes, at + 4, body.len() + 8, 4, c + body);
    lemma_take(bytes, at + 8, crc, 8, body);
    let d = binary::le_bytes(entries.len(), 4);
    let e = binary::le_bytes(segments.len(), 4);
    let f = binary::le_bytes(0, 4);
    let g = archive_writer::entry_table(entries);
    let h = archive_writer::segment_table(segments);
    binary::lemma_le_bytes_len(entries.len(), 4);
    binary::lemma_le_bytes_len(segments.len(), 4);
    binary::lemma_le_bytes_len(0, 4);
    assert(body =~= d + (e + (f + (g + h))));
    lemma_take(bytes, at + 16, entries.len(), 4, e + (f + (g + h)));
    lemma_take(bytes, at + 20, segments.len(), 4, f + (g + h));
    lemma_take(bytes, at + 24, 0, 4, g + h);
    sequence::lemma_stands_split(bytes, at + 28, g, h);
    lemma_read_entries(bytes, at + 28, entries);
    lemma_read_segments(bytes, at + 28 + 56 * entries.len(), segments);
}

// ---------------------------------------------------------------------------
// Custom paths
// ---------------------------------------------------------------------------

/// A path that a zero byte can end.
pub open spec fn no_zero_byte(path: Seq<char>) -> bool {
    forall|i: int|
        0 <= i < utf8::encode_utf8(path).len() ==> #[trigger] utf8::encode_utf8(path)[i] != 0
}

proof fn lemma_path_prefix(paths: Seq<Seq<char>>, i: int)
    requires
        0 <= i <= paths.len(),
    ensures
        sequence::stands(
            archive_writer::path_bytes(paths),
            0,
            archive_writer::path_bytes(paths.subrange(0, i)),
        ),
    decreases paths.len() - i,
{
    let whole = archive_writer::path_bytes(paths);
    if i == paths.len() {
        assert(paths.subrange(0, i) =~= paths);
        assert(whole.subrange(0, whole.len() as int) =~= whole);
    } else {
        lemma_path_prefix(paths, i + 1);
        let before = archive_writer::path_bytes(paths.subrange(0, i));
        let after = archive_writer::path_bytes(paths.subrange(0, i + 1));
        assert(paths.subrange(0, i + 1).drop_last() =~= paths.subrange(0, i));
        assert(after.subrange(0, before.len() as int) =~= before);
        sequence::lemma_stands_within(whole, 0, after, 0, before);
    }
}

proof fn lemma_find_end(bytes: Seq<u8>, at: nat, end: nat)
    requires
        at <= end < bytes.len(),
        bytes[end as int] == 0,
        forall|i: int| at <= i < end ==> bytes[i] != 0,
    ensures
        archive::next_zero(bytes, at) == Some(end),
    decreases end - at,
{
    if at < end {
        lemma_find_end(bytes, at + 1, end);
    }
}

/// The paths from `i` on are read back.
proof fn lemma_read_paths(paths: Seq<Seq<char>>, i: int)
    requires
        0 <= i <= paths.len(),
        forall|k: int| 0 <= k < paths.len() ==> no_zero_byte(#[trigger] paths[k]),
    ensures
        archive::path_list(
            archive_writer::path_bytes(paths),
            archive_writer::path_bytes(paths.subrange(0, i)).len(),
            (paths.len() - i) as nat,
            paths.subrange(0, i),
        ) == Some(paths),
    decreases paths.len() - i,
{
    let whole = archive_writer::path_bytes(paths);
    if i == paths.len() {
        assert(paths.subrange(0, i) =~= paths);
    } else {
        let before = archive_writer::path_bytes(paths.subrange(0, i));
        let after = archive_writer::path_bytes(paths.subrange(0, i + 1));
        let coded = utf8::encode_utf8(paths[i]);
        let at = before.len();
        let end = at + coded.len();
        assert(paths.subrange(0, i + 1).drop_last() =~= paths.subrange(0, i));
        lemma_path_prefix(paths, i + 1);
        sequence::lemma_stands_split(whole, 0, before, coded.push(0));
        sequence::lemma_stands_index(whole, at, coded.push(0), coded.len() as int);
        assert(no_zero_byte(paths[i]));
        assert forall|k: int| at <= k < end implies whole[k] != 0 by {
            sequence::lemma_stands_index(whole, at, coded.push(0), k - at);
            assert(coded[k - at] != 0);
        }
        lemma_find_end(whole, at, end);
        assert(whole.subrange(at as int, end as int) =~= coded) by {
            assert forall|k: int| 0 <= k < coded.len() implies whole[at + k] == coded[k] by {
                sequence::lemma_stands_index(whole, at, coded.push(0), k);
            }
        }
        utf8::encode_utf8_valid_utf8(paths[i]);
        utf8::encode_utf8_decode_utf8(paths[i]);
        assert(text::readable_text(coded) == paths[i]);
        assert(paths.subrange(0, i).push(paths[i]) =~= paths.subrange(0, i + 1));
        lemma_read_paths(paths, i + 1);
    }
}

/// The table of custom paths is read back.
pub proof fn law_read_paths(bytes: Seq<u8>, paths: Seq<Seq<char>>)
    requires
        archive_writer::lxrs_fits(paths),
        sequence::stands(bytes, EXTENDED_HEADER_SIZE as nat, archive_writer::lxrs_bytes(paths)),
        forall|k: int| 0 <= k < paths.len() ==> no_zero_byte(#[trigger] paths[k]),
    ensures
        archive::custom_paths_of(bytes, archive_writer::lxrs_bytes(paths).len()) == Ok::<
            Seq<Seq<char>>,
            ArchiveError,
        >(paths),
        archive_writer::lxrs_bytes(paths).len() == 20 + archive_writer::path_bytes(paths).len(),
{
    binary::lemma_byte_ranges();
    let at = EXTENDED_HEADER_SIZE as nat;
    let encoded = archive_writer::path_bytes(paths);
    let a = binary::le_bytes(LXRS_MAGIC as nat, 4);
    let b = binary::le_bytes(1, 4);
    let c = binary::le_bytes(encoded.len(), 4);
    let d = binary::le_bytes(paths.len(), 4);
    binary::lemma_le_bytes_len(LXRS_MAGIC as nat, 4);
    binary::lemma_le_bytes_len(1, 4);
    binary::lemma_le_bytes_len(encoded.len(), 4);
    binary::lemma_le_bytes_len(paths.len(), 4);
    assert(archive_writer::lxrs_bytes(paths) =~= a + (b + (c + (c + (d + encoded)))));
    lemma_take(bytes, at, LXRS_MAGIC as nat, 4, b + (c + (c + (d + encoded))));
    lemma_take(bytes, at + 4, 1, 4, c + (c + (d + encoded)));
    lemma_take(bytes, at + 8, encoded.len(), 4, c + (d + encoded));
    lemma_take(bytes, at + 12, encoded.len(), 4, d + encoded);
    lemma_take(bytes, at + 16, paths.len(), 4, encoded);
    lemma_read_paths(paths, 0);
    assert(paths.subrange(0, 0) =~= Seq::<Seq<char>>::empty());
    assert(archive_writer::path_bytes(Seq::<Seq<char>>::empty()).len() == 0);
}

// ---------------------------------------------------------------------------
// The whole archive
// ---------------------------------------------------------------------------

/// Every entry's segments are there.
pub open spec fn ranges_ok(entries: Seq<RawModel>, segments: Seq<ArchiveSegment>) -> bool {
    forall|i: int| 0 <= i < entries.len() ==> archive::range_ok(#[trigger] entries[i], segments)
}

proof fn lemma_buffers_grow(state: PackState, bytes: Seq<u8>, table: nat, i: nat, count: nat)
    ensures
        archive_pack::add_buffers(state, bytes, table, i, count) matches Ok(after)
            ==> after.segments.len() >= state.segments.len() && after.entries == state.entries,
    decreases count - i,
{
    if i < count {
        let info = table + 24 * i;
        match (
            binary::number_at(bytes, info + 8, 4),
            binary::number_at(bytes, info + 12, 4),
            binary::number_at(bytes, info + 16, 4),
        ) {
            (Some(offset), Some(disk_size), Some(memory_size)) => {
                let next = PackState {
                    out: state.out + bytes.subrange(offset as int, (offset + disk_size) as int),
                    segments: state.segments.push(
                        ArchiveSegment {
                            offset: state.out.len() as u64,
                            compressed_size: disk_size as u32,
                            size: memory_size as u32,
                        },
                    ),
                    entries: state.entries,
                };
                lemma_buffers_grow(next, bytes, table, i + 1, count);
            },
            _ => {},
        }
    }
}

pub proof fn lemma_segments_grow(state: PackState, file: PackModel)
    ensures
        archive_pack::add_segments(state, file) matches Ok((after, _)) ==> after.segments.len()
            >= state.segments.len() && after.entries == state.entries,
{
    if archive_writer::is_cr2w(file.bytes) {
        match (
            archive_writer::main_part(file.bytes),
            binary::number_at(file.bytes, 100, 4),
            binary::number_at(file.bytes, 104, 4),
        ) {
            (Ok(main), Some(table), Some(count)) => {
                match archive_pack::add_payload(state, main, file.compressed) {
                    Err(_) => {},
                    Ok(next) => {
                        lemma_buffers_grow(next, file.bytes, table, 0, count);
                    },
                }
            },
            _ => {},
        }
    }
}

/// Every packed entry's segments are there.
proof fn lemma_ranges_ok(state: PackState, files: Seq<PackModel>, n: nat)
    requires
        ranges_ok(state.entries, state.segments),
    ensures
        archive_pack::add_files(state, files, n) matches Ok(after) ==> ranges_ok(
            after.entries,
            after.segments,
        ) && after.entries.len() == state.entries.len() + n,
    decreases n,
{
    if n > 0 {
        lemma_ranges_ok(state, files, (n - 1) as nat);
        match archive_pack::add_files(state, files, (n - 1) as nat) {
            Err(_) => {},
            Ok(before) => {
                lemma_segments_grow(before, files[n - 1]);
                match archive_pack::add_file(before, files[n - 1]) {
                    Err(_) => {},
                    Ok(after) => {
                        assert forall|i: int| 0 <= i < after.entries.len() implies archive::range_ok(
                            #[trigger] after.entries[i],
                            after.segments,
                        ) by {
                            if i < before.entries.len() {
                                assert(after.entries[i] == before.entries[i]);
                                assert(archive::range_ok(before.entries[i], before.segments));
                            }
                        }
                    },
                }
            },
        }
    }
}

proof fn lemma_no_bad_entry(raws: Seq<RawModel>, segments: Seq<ArchiveSegment>, i: nat)
    requires
        ranges_ok(raws, segments),
    ensures
        archive::bad_entry(raws, segments, i) is None,
    decreases raws.len() - i,
{
    if i < raws.len() {
        assert(archive::range_ok(raws[i as int], segments));
        lemma_no_bad_entry(raws, segments, i + 1);
    }
}

/// What is found in a packed archive.
pub open spec fn packed_model(state: PackState, paths: Seq<Seq<char>>) -> ArchiveModel {
    let before = archive_pack::padded(state.out);
    let index = archive_writer::index_bytes(state.entries, state.segments);
    let body = archive_writer::index_body(state.entries, state.segments);
    ArchiveModel {
        header: archive::ArchiveHeader {
            version: 12,
            index_position: before.len() as u64,
            index_size: index.len() as u32,
            debug_position: 0,
            debug_size: 0,
            file_size: archive_pack::padded(before + index).len() as u64,
        },
        file_table_offset: 8,
        file_table_size: (body.len() + 8) as u32,
        crc: archive_writer::crc64_of(body),
        entries: archive::sized_entries(state.entries, state.segments),
        segments: state.segments,
        segment_count: state.segments.len() as u32,
        dependency_count: 0,
        custom_paths: paths,
    }
}

proof fn lemma_read_header(
    bytes: Seq<u8>,
    index_position: nat,
    index_size: nat,
    file_size: nat,
    length: nat,
)
    requires
        index_position < 0x1_0000_0000_0000_0000,
        index_size < 0x1_0000_0000,
        file_size < 0x1_0000_0000_0000_0000,
        length < 0x1_0000_0000,
        sequence::stands(
            bytes,
            0,
            archive_pack::header_bytes(index_position, index_size, file_size, length),
        ),
    ensures
        archive::field(bytes, 0, 4) == ARCHIVE_MAGIC,
        archive::header_of(bytes) == (archive::ArchiveHeader {
            version: 12,
            index_position: index_position as u64,
            index_size: index_size as u32,
            debug_position: 0,
            debug_size: 0,
            file_size: file_size as u64,
        }),
        archive::field(bytes, 40, 4) == length,
        archive_pack::header_bytes(index_position, index_size, file_size, length).len() == 44,
{
    binary::lemma_byte_ranges();
    let a = binary::le_bytes(ARCHIVE_MAGIC as nat, 4);
    let b = binary::le_bytes(12, 4);
    let c = binary::le_bytes(index_position, 8);
    let d = binary::le_bytes(index_size, 4);
    let e = binary::le_bytes(0, 8);
    let f = binary::le_bytes(0, 4);
    let g = binary::le_bytes(file_size, 8);
    let h = binary::le_bytes(length, 4);
    binary::lemma_le_bytes_len(ARCHIVE_MAGIC as nat, 4);
    binary::lemma_le_bytes_len(12, 4);
    binary::lemma_le_bytes_len(index_position, 8);
    binary::lemma_le_bytes_len(index_size, 4);
    binary::lemma_le_bytes_len(0, 8);
    binary::lemma_le_bytes_len(0, 4);
    binary::lemma_le_bytes_len(file_size, 8);
    binary::lemma_le_bytes_len(length, 4);
    assert(archive_pack::header_bytes(index_position, index_size, file_size, length) =~= a + (b + (
    c + (d + (e + (f + (g + h)))))));
    lemma_take(bytes, 0, ARCHIVE_MAGIC as nat, 4, b + (c + (d + (e + (f + (g + h))))));
    lemma_take(bytes, 4, 12, 4, c + (d + (e + (f + (g + h)))));
    lemma_take(bytes, 8, index_position, 8, d + (e + (f + (g + h))));
    lemma_take(bytes, 16, index_size, 4, e + (f + (g + h)));
    lemma_take(bytes, 20, 0, 8, f + (g + h));
    lemma_take(bytes, 28, 0, 4, g + h);
    lemma_take(bytes, 32, file_size, 8, h);
    lemma_field(bytes, 40, length, 4);
}

pub proof fn lemma_header_len(index_position: nat, index_size: nat, file_size: nat, length: nat)
    ensures
        archive_pack::header_bytes(index_position, index_size, file_size, length).len() == 44,
{
    binary::lemma_le_bytes_len(ARCHIVE_MAGIC as nat, 4);
    binary::lemma_le_bytes_len(12, 4);
    binary::lemma_le_bytes_len(index_position, 8);
    binary::lemma_le_bytes_len(index_size, 4);
    binary::lemma_le_bytes_len(0, 8);
    binary::lemma_le_bytes_len(0, 4);
    binary::lemma_le_bytes_len(file_size, 8);
    binary::lemma_le_bytes_len(length, 4);
}

/// Where the parts of a finished archive stand.
pub proof fn lemma_finished_layout(state: PackState, paths: Seq<Seq<char>>)
    requires
        sequence::stands(
            state.out,
            0,
            sequence::repeated(0, EXTENDED_HEADER_SIZE as nat) + archive_writer::lxrs_bytes(paths),
        ),
    ensures
        ({
            let before = archive_pack::padded(state.out);
            let index = archive_writer::index_bytes(state.entries, state.segments);
            let whole = archive_pack::padded(before + index);
            let length = archive_writer::lxrs_bytes(paths).len();
            let bytes = archive_pack::finished(state, length);
            &&& bytes.len() == whole.len()
            &&& sequence::stands(bytes, before.len(), index)
            &&& sequence::stands(
                bytes,
                EXTENDED_HEADER_SIZE as nat,
                archive_writer::lxrs_bytes(paths),
            )
            &&& sequence::stands(
                bytes,
                0,
                archive_pack::header_bytes(before.len(), index.len(), whole.len(), length),
            )
            &&& before.len() >= EXTENDED_HEADER_SIZE
        }),
{
    let before = archive_pack::padded(state.out);
    let index = archive_writer::index_bytes(state.entries, state.segments);
    let whole = archive_pack::padded(before + index);
    let lxrs = archive_writer::lxrs_bytes(paths);
    let bytes = archive_pack::finished(state, lxrs.len());
    let header = archive_pack::header_bytes(before.len(), index.len(), whole.len(), lxrs.len());
    lemma_header_len(before.len(), index.len(), whole.len(), lxrs.len());
    let zeros = sequence::repeated(0, EXTENDED_HEADER_SIZE as nat);
    sequence::lemma_stands_split(state.out, 0, zeros, lxrs);
    assert(bytes.len() == whole.len());
    assert(bytes.subrange(0, 44) =~= header);
    assert(bytes.subrange(before.len() as int, (before.len() + index.len()) as int) =~= index) by {
        assert forall|k: int| 0 <= k < index.len() implies bytes[before.len() + k] == index[k] by {
            assert(bytes[before.len() + k] == whole[before.len() + k]);
        }
    }
    let at = EXTENDED_HEADER_SIZE as int;
    assert(bytes.subrange(at, at + lxrs.len()) =~= lxrs) by {
        assert forall|k: int| 0 <= k < lxrs.len() implies bytes[at + k] == lxrs[k] by {
            sequence::lemma_stands_index(state.out, EXTENDED_HEADER_SIZE as nat, lxrs, k);
            assert(bytes[at + k] == whole[at + k]);
            assert(whole[at + k] == state.out[at + k]);
        }
    }
}

/// A finished archive is read back.
pub proof fn law_read_finished(state: PackState, paths: Seq<Seq<char>>)
    requires
        digests_ok(state.entries),
        ranges_ok(state.entries, state.segments),
        archive_writer::index_fits(state.entries, state.segments),
        archive_writer::index_bytes(state.entries, state.segments).len() <= 0xffff_ffff,
        archive_writer::lxrs_fits(paths),
        sequence::stands(
            state.out,
            0,
            sequence::repeated(0, EXTENDED_HEADER_SIZE as nat) + archive_writer::lxrs_bytes(paths),
        ),
        forall|k: int| 0 <= k < paths.len() ==> no_zero_byte(#[trigger] paths[k]),
        archive_pack::finished(state, archive_writer::lxrs_bytes(paths).len()).len() <= usize::MAX,
    ensures
        archive::archive(
            archive_pack::finished(state, archive_writer::lxrs_bytes(paths).len()),
        ) == Ok::<ArchiveModel, ArchiveError>(packed_model(state, paths)),
{
    let before = archive_pack::padded(state.out);
    let index = archive_writer::index_bytes(state.entries, state.segments);
    let whole = archive_pack::padded(before + index);
    let length = archive_writer::lxrs_bytes(paths).len();
    let bytes = archive_pack::finished(state, length);
    lemma_finished_layout(state, paths);
    law_read_paths(bytes, paths);
    law_read_index(bytes, before.len(), state.entries, state.segments);
    lemma_read_header(bytes, before.len(), index.len(), whole.len(), length);
    lemma_no_bad_entry(state.entries, state.segments, 0);
}

/// A packed archive is read back: its index lists every file in the order of
/// the hashes, with its digest and its segments, and the paths are there.
pub proof fn law_read_packed(files: Seq<PackModel>)
    requires
        archive_pack::packed(files) is Ok,
        archive_pack::packed(files)->Ok_0.len() <= usize::MAX,
        forall|k: int| 0 <= k < files.len() ==> no_zero_byte((#[trigger] files[k]).path),
        ({
            let order = archive_pack::ordered(files);
            let state = archive_pack::add_files(
                archive_pack::body_start(order),
                order,
                order.len(),
            )->Ok_0;
            digests_ok(state.entries)
        }),
    ensures
        ({
            let order = archive_pack::ordered(files);
            let state = archive_pack::add_files(
                archive_pack::body_start(order),
                order,
                order.len(),
            )->Ok_0;
            &&& archive::archive(archive_pack::packed(files)->Ok_0) == Ok::<
                ArchiveModel,
                ArchiveError,
            >(packed_model(state, archive_pack::paths_of(order)))
            &&& state.entries.len() == files.len()
        }),
{
    let order = archive_pack::ordered(files);
    let start = archive_pack::body_start(order);
    let paths = archive_pack::paths_of(order);
    let state = archive_pack::add_files(start, order, order.len())->Ok_0;
    archive_pack::lemma_files_kept(start, order, order.len());
    lemma_ranges_ok(start, order, order.len());
    let hashes = sequence::sorted(archive_pack::path_hashes(files));
    sequence::lemma_sorted(archive_pack::path_hashes(files));
    assert forall|k: int| 0 <= k < paths.len() implies no_zero_byte(#[trigger] paths[k]) by {
        assert(hashes.contains(hashes[k]));
        assert(archive_pack::path_hashes(files).contains(hashes[k]));
        archive_pack::lemma_file_with(files, hashes[k], 0);
        let index = archive_pack::file_with(files, hashes[k], 0) as int;
        assert(order[k] == files[index]);
        assert(paths[k] == files[index].path);
    }
    law_read_finished(state, paths);
}

} // verus!
