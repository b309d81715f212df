//! A packed archive gives the bytes of its files back.

use crate::archive;
use crate::archive::{ArchiveError, ArchiveModel, ArchiveSegment};
use crate::archive_frames;
use crate::archive_frames::ContentModel;
use crate::archive_laws;
use crate::archive_pack;
use crate::archive_pack::{PackModel, PackState};
use crate::archive_writer;
use crate::binary;
use crate::kraken::encoder;
use crate::sequence;
use vstd::prelude::*;

verus! {

// ---------------------------------------------------------------------------
// What is stored of a file
// ---------------------------------------------------------------------------

/// A buffer of a CR2W file as it is stored, and the size that it unpacks to.
pub open spec fn buffer_part(bytes: Seq<u8>, table: nat, i: nat) -> (Seq<u8>, nat) {
    let info = table + 24 * i;
    let offset = binary::number_at(bytes, info + 8, 4)->0;
    let size = binary::number_at(bytes, info + 12, 4)->0;
    (
        bytes.subrange(offset as int, (offset + size) as int),
        binary::number_at(bytes, info + 16, 4)->0,
    )
}

/// The main part of a file: all of it, or what comes before the buffers of a
/// CR2W file.
pub open spec fn main_bytes(file: PackModel) -> Seq<u8> {
    archive_writer::main_part(file.bytes)->Ok_0
}

/// How many buffers of a file are stored by themselves.
pub open spec fn buffer_count(file: PackModel) -> nat {
    if archive_writer::is_cr2w(file.bytes) {
        binary::number_at(file.bytes, 104, 4)->0
    } else {
        0
    }
}

/// What the segment of an index holds of a file, and its unpacked size: first
/// the main part, and then the buffers in order.
pub open spec fn file_part(file: PackModel, i: nat) -> (Seq<u8>, nat) {
    if i == 0 {
        (
            archive_pack::stored_payload(main_bytes(file), file.compressed),
            main_bytes(file).len(),
        )
    } else {
        buffer_part(file.bytes, binary::number_at(file.bytes, 100, 4)->0, (i - 1) as nat)
    }
}

/// Whether a segment holds a part at its offset, which is not before a floor.
pub open spec fn part_held(
    bytes: Seq<u8>,
    segment: ArchiveSegment,
    part: (Seq<u8>, nat),
    floor: nat,
) -> bool {
    &&& segment.compressed_size == part.0.len()
    &&& segment.size == part.1
    &&& segment.offset >= floor
    &&& sequence::stands(bytes, segment.offset as nat, part.0)
}

/// Whether the segments of an entry hold a file: its parts, and nothing else.
pub open spec fn file_held(
    bytes: Seq<u8>,
    segments: Seq<ArchiveSegment>,
    start: nat,
    end: nat,
    file: PackModel,
    floor: nat,
) -> bool {
    &&& end == start + 1 + buffer_count(file)
    &&& end <= segments.len()
    &&& forall|s: int|
        start <= s < end ==> part_held(
            bytes,
            #[trigger] segments[s],
            file_part(file, (s - start) as nat),
            floor,
        )
}

// ---------------------------------------------------------------------------
// Parts stay where they are
// ---------------------------------------------------------------------------

proof fn lemma_part_kept(
    a: Seq<u8>,
    b: Seq<u8>,
    segment: ArchiveSegment,
    part: (Seq<u8>, nat),
    floor: nat,
)
    requires
        part_held(a, segment, part, floor),
        sequence::stands(b, 0, a),
    ensures
        part_held(b, segment, part, floor),
{
    sequence::lemma_stands_within(b, 0, a, segment.offset as nat, part.0);
}

proof fn lemma_file_kept(
    a: Seq<u8>,
    before: Seq<ArchiveSegment>,
    b: Seq<u8>,
    after: Seq<ArchiveSegment>,
    start: nat,
    end: nat,
    file: PackModel,
    floor: nat,
)
    requires
        file_held(a, before, start, end, file, floor),
        sequence::stands(b, 0, a),
        sequence::stands(after, 0, before),
    ensures
        file_held(b, after, start, end, file, floor),
{
    assert forall|s: int| start <= s < end implies part_held(
        b,
        #[trigger] after[s],
        file_part(file, (s - start) as nat),
        floor,
    ) by {
        sequence::lemma_stands_index(after, 0, before, s);
        assert(after[s] == before[s]);
        lemma_part_kept(a, b, before[s], file_part(file, (s - start) as nat), floor);
    }
}

proof fn lemma_front<T>(a: Seq<T>, more: Seq<T>)
    ensures
        sequence::stands(a + more, 0, a),
        sequence::stands(a + more, a.len(), more),
{
    assert((a + more).subrange(0, a.len() as int) =~= a);
    assert((a + more).subrange(a.len() as int, (a.len() + more.len()) as int) =~= more);
}

/// One state comes out of another by appending.
spec fn grown(a: PackState, b: PackState) -> bool {
    &&& sequence::stands(b.out, 0, a.out)
    &&& sequence::stands(b.segments, 0, a.segments)
    &&& b.entries == a.entries
}

proof fn lemma_grown(a: PackState, b: PackState, c: PackState)
    requires
        grown(a, b),
        grown(b, c),
    ensures
        grown(a, c),
{
    sequence::lemma_stands_within(c.out, 0, b.out, 0, a.out);
    sequence::lemma_stands_within(c.segments, 0, b.segments, 0, a.segments);
}

proof fn lemma_same(a: PackState)
    ensures
        grown(a, a),
{
    assert(a.out.subrange(0, a.out.len() as int) =~= a.out);
    assert(a.segments.subrange(0, a.segments.len() as int) =~= a.segments);
}

// ---------------------------------------------------------------------------
// Parts are put where their segments say
// ---------------------------------------------------------------------------

/// One segment is appended.
proof fn lemma_push(state: PackState, part: (Seq<u8>, nat), next: PackState)
    requires
        state.out.len() <= u64::MAX,
        part.0.len() <= u32::MAX,
        part.1 <= u32::MAX,
        next == (PackState {
            out: state.out + part.0,
            segments: state.segments.push(
                ArchiveSegment {
                    offset: state.out.len() as u64,
                    compressed_size: part.0.len() as u32,
                    size: part.1 as u32,
                },
            ),
            entries: state.entries,
        }),
    ensures
        grown(state, next),
        part_held(next.out, next.segments.last(), part, state.out.len()),
{
    lemma_front(state.out, part.0);
    assert(next.segments.subrange(0, state.segments.len() as int) =~= state.segments);
}

/// The buffers from index `i` on are put where their segments say; `first` is
/// where the segment of the first buffer stands.
proof fn lemma_buffers(
    state: PackState,
    bytes: Seq<u8>,
    table: nat,
    i: nat,
    count: nat,
    first: nat,
    floor: nat,
    after: PackState,
)
    requires
        archive_pack::add_buffers(state, bytes, table, i, count) == Ok::<PackState, ArchiveError>(
            after,
        ),
        i <= count,
        state.segments.len() == first + i,
        floor <= state.out.len(),
        after.out.len() <= u64::MAX,
    ensures
        grown(state, after),
        after.segments.len() == first + count,
        forall|s: int|
            first + i <= s < first + count ==> part_held(
                after.out,
                #[trigger] after.segments[s],
                buffer_part(bytes, table, (s - first) as nat),
                floor,
            ),
    decreases count - i,
{
    if i == count {
        lemma_same(state);
    } else {
        let info = table + 24 * i;
        let offset = binary::number_at(bytes, info + 8, 4)->0;
        let disk_size = binary::number_at(bytes, info + 12, 4)->0;
        let memory_size = binary::number_at(bytes, info + 16, 4)->0;
        let part = buffer_part(bytes, table, i);
        binary::lemma_byte_ranges();
        binary::law_write_read(
            bytes.subrange((info + 12) as int, (info + 16) as int),
        );
        binary::law_write_read(
            bytes.subrange((info + 16) as int, (info + 20) as int),
        );
        let next = PackState {
            out: state.out + part.0,
            segments: state.segments.push(
                ArchiveSegment {
                    offset: state.out.len() as u64,
                    compressed_size: disk_size as u32,
                    size: memory_size as u32,
                },
            ),
            entries: state.entries,
        };
        archive_pack::lemma_buffers_kept(next, bytes, table, i + 1, count);
        assert(next.out.len() <= after.out.len());
        lemma_push(state, part, next);
        lemma_buffers(next, bytes, table, i + 1, count, first, floor, after);
        lemma_grown(state, next, after);
        assert forall|s: int| first + i <= s < first + count implies part_held(
            after.out,
            #[trigger] after.segments[s],
            buffer_part(bytes, table, (s - first) as nat),
            floor,
        ) by {
            if s == first + i {
                sequence::lemma_stands_index(after.segments, 0, next.segments, s);
                assert(after.segments[s] == next.segments.last());
                lemma_part_kept(next.out, after.out, next.segments.last(), part, state.out.len());
            }
        }
    }
}

proof fn lemma_stored_len(bytes: Seq<u8>, compressed: Option<Seq<u8>>)
    ensures
        archive_pack::stored_payload(bytes, compressed).len() <= bytes.len(),
{
    binary::lemma_le_bytes_len(bytes.len(), 4);
}

/// The segments of a file hold it.
proof fn lemma_segments(state: PackState, file: PackModel, floor: nat, after: PackState)
    requires
        archive_pack::add_segments(state, file) is Ok,
        archive_pack::add_segments(state, file)->Ok_0.0 == after,
        floor <= state.out.len(),
        after.out.len() <= u64::MAX,
    ensures
        grown(state, after),
        file_held(
            after.out,
            after.segments,
            state.segments.len(),
            after.segments.len(),
            file,
            floor,
        ),
{
    let start = state.segments.len();
    let main = main_bytes(file);
    let part = file_part(file, 0);
    lemma_stored_len(main, file.compressed);
    if archive_writer::is_cr2w(file.bytes) {
        let table = binary::number_at(file.bytes, 100, 4)->0;
        let count = binary::number_at(file.bytes, 104, 4)->0;
        let next = archive_pack::add_payload(state, main, file.compressed)->Ok_0;
        archive_pack::lemma_buffers_kept(next, file.bytes, table, 0, count);
        lemma_push(state, part, next);
        lemma_buffers(next, file.bytes, table, 0, count, start + 1, floor, after);
        lemma_grown(state, next, after);
        assert forall|s: int| start <= s < after.segments.len() implies part_held(
            after.out,
            #[trigger] after.segments[s],
            file_part(file, (s - start) as nat),
            floor,
        ) by {
            if s == start {
                sequence::lemma_stands_index(after.segments, 0, next.segments, s);
                assert(after.segments[s] == next.segments.last());
                lemma_part_kept(next.out, after.out, next.segments.last(), part, state.out.len());
            }
        }
    } else {
        let padding = sequence::repeated(0, archive_writer::page_padding(state.out.len()));
        let aligned = if archive_writer::is_streamed(file.path) {
            PackState { out: state.out + padding, ..state }
        } else {
            state
        };
        lemma_same(state);
        lemma_front(state.out, padding);
        lemma_push(aligned, part, after);
        lemma_grown(state, aligned, after);
        assert forall|s: int| start <= s < after.segments.len() implies part_held(
            after.out,
            #[trigger] after.segments[s],
            file_part(file, (s - start) as nat),
            floor,
        ) by {
            assert(after.segments[s] == after.segments.last());
        }
    }
}

/// The entries of the first `n` files hold them.
proof fn lemma_files(start: PackState, files: Seq<PackModel>, n: nat, after: PackState)
    requires
        n <= files.len(),
        archive_pack::add_files(start, files, n) == Ok::<PackState, ArchiveError>(after),
        start.entries.len() == 0,
        after.out.len() <= u64::MAX,
    ensures
        after.entries.len() == n,
        start.out.len() <= after.out.len(),
        forall|k: int|
            0 <= k < n ==> (#[trigger] after.entries[k]).name_hash == archive::depot_hash(
                files[k].path,
            ) && file_held(
                after.out,
                after.segments,
                after.entries[k].segments_start as nat,
                after.entries[k].segments_end as nat,
                files[k],
                start.out.len(),
            ),
    decreases n,
{
    if n > 0 {
        let file = files[n - 1];
        let before = archive_pack::add_files(start, files, (n - 1) as nat)->Ok_0;
        let (added, _) = archive_pack::add_segments(before, file)->Ok_0;
        archive_pack::lemma_segments_kept(before, file);
        lemma_files(start, files, (n - 1) as nat, before);
        lemma_segments(before, file, start.out.len(), added);
        assert forall|k: int| 0 <= k < n implies (#[trigger] after.entries[k]).name_hash
            == archive::depot_hash(files[k].path) && file_held(
            after.out,
            after.segments,
            after.entries[k].segments_start as nat,
            after.entries[k].segments_end as nat,
            files[k],
            start.out.len(),
        ) by {
            if k < n - 1 {
                assert(after.entries[k] == before.entries[k]);
                lemma_file_kept(
                    before.out,
                    before.segments,
                    after.out,
                    after.segments,
                    before.entries[k].segments_start as nat,
                    before.entries[k].segments_end as nat,
                    files[k],
                    start.out.len(),
                );
            }
        }
    }
}

/// What stands behind the header stays when the archive is finished.
proof fn lemma_finished(state: PackState, length: nat, at: nat, part: Seq<u8>)
    requires
        at >= 44,
        sequence::stands(state.out, at, part),
    ensures
        sequence::stands(archive_pack::finished(state, length), at, part),
{
    let before = archive_pack::padded(state.out);
    let index = archive_writer::index_bytes(state.entries, state.segments);
    let whole = archive_pack::padded(before + index);
    let bytes = archive_pack::finished(state, length);
    archive_laws::lemma_header_len(before.len(), index.len(), whole.len(), length);
    assert forall|i: int| 0 <= i < part.len() implies bytes[at + i] == part[i] by {
        sequence::lemma_stands_index(state.out, at, part, i);
        assert(bytes[at + i] == whole[at + i]);
        assert(whole[at + i] == state.out[at + i]);
    }
    assert(bytes.subrange(at as int, (at + part.len()) as int) =~= part);
}

// ---------------------------------------------------------------------------
// Hashes lead to paths
// ---------------------------------------------------------------------------

proof fn lemma_no_duplicate(hashes: Seq<u64>, i: nat, j: nat)
    requires
        archive_pack::duplicate_from(hashes, i) is None,
        i <= j,
        j + 1 < hashes.len(),
    ensures
        hashes[j as int] != hashes[j as int + 1],
    decreases j - i,
{
    if i < j {
        lemma_no_duplicate(hashes, i + 1, j);
    }
}

proof fn lemma_path_with(paths: Seq<Seq<char>>, k: nat, n: nat)
    requires
        k < n <= paths.len(),
        forall|j: int|
            k < j < n ==> archive::depot_hash(#[trigger] paths[j]) != archive::depot_hash(
                paths[k as int],
            ),
    ensures
        archive::path_with(paths, archive::depot_hash(paths[k as int]), n) == Some(k),
    decreases n,
{
    if k < n - 1 {
        assert(archive::depot_hash(paths[n - 1]) != archive::depot_hash(paths[k as int]));
        lemma_path_with(paths, k, (n - 1) as nat);
    }
}

/// The hash of each packed file leads to its path.
proof fn lemma_resolved(files: Seq<PackModel>, k: nat)
    requires
        archive_pack::duplicate_from(
            sequence::sorted(archive_pack::path_hashes(files)),
            0,
        ) is None,
        k < files.len(),
    ensures
        archive_pack::ordered(files).len() == files.len(),
        ({
            let paths = archive_pack::paths_of(archive_pack::ordered(files));
            archive::path_with(paths, archive::depot_hash(paths[k as int]), paths.len()) == Some(k)
        }),
{
    let all = archive_pack::path_hashes(files);
    let hashes = sequence::sorted(all);
    let order = archive_pack::ordered(files);
    let paths = archive_pack::paths_of(order);
    sequence::lemma_sorted(all);
    assert forall|j: int| 0 <= j < hashes.len() implies archive::depot_hash(#[trigger] paths[j])
        == hashes[j] by {
        assert(hashes.contains(hashes[j]));
        archive_pack::lemma_file_with(files, hashes[j], 0);
        assert(paths[j] == order[j].path);
    }
    assert forall|j: int| k < j < paths.len() implies archive::depot_hash(#[trigger] paths[j])
        != archive::depot_hash(paths[k as int]) by {
        lemma_no_duplicate(hashes, 0, k);
        assert(hashes[k as int] <= hashes[k as int + 1]);
        assert(hashes[k as int + 1] <= hashes[j]);
    }
    lemma_path_with(paths, k, paths.len());
}

// ---------------------------------------------------------------------------
// The law
// ---------------------------------------------------------------------------

/// What is taken out of an archive for a segment.
pub open spec fn taken(bytes: Seq<u8>, segment: ArchiveSegment) -> Seq<u8> {
    bytes.subrange(segment.offset as int, segment.offset + segment.compressed_size)
}

/// Whether file `k` of the order of the hashes is given back by the index of an
/// archive: its hash leads to its path, its segments hold its parts, and the
/// first of them opens to its main part. All other segments are taken as they
/// are.
pub open spec fn given_back(bytes: Seq<u8>, index: ArchiveModel, file: PackModel, k: nat) -> bool {
    let entry = index.entries[k as int];
    let first = index.segments[entry.segments_start as int];
    &&& entry.name_hash == archive::depot_hash(file.path)
    &&& archive::path_with(index.custom_paths, entry.name_hash, index.custom_paths.len()) == Some(k)
    &&& index.custom_paths[k as int] == file.path
    &&& file_held(
        bytes,
        index.segments,
        entry.segments_start as nat,
        entry.segments_end as nat,
        file,
        44,
    )
    &&& (file.compressed is Some ==> file.compressed->0 == encoder::encoded(main_bytes(file)))
        ==> archive_frames::segment_content(taken(bytes, first), first, true) == Ok::<
        ContentModel,
        ArchiveError,
    >(ContentModel::Ready(main_bytes(file)))
    &&& forall|s: int|
        entry.segments_start < s < entry.segments_end ==> archive_frames::segment_content(
            taken(bytes, #[trigger] index.segments[s]),
            index.segments[s],
            false,
        ) == Ok::<ContentModel, ArchiveError>(
            ContentModel::Ready(file_part(file, (s - entry.segments_start) as nat).0),
        )
}

proof fn lemma_taken(bytes: Seq<u8>, segment: ArchiveSegment, part: (Seq<u8>, nat), floor: nat)
    requires
        part_held(bytes, segment, part, floor),
    ensures
        taken(bytes, segment) == part.0,
{
}

proof fn lemma_given_back(
    bytes: Seq<u8>,
    index: ArchiveModel,
    file: PackModel,
    k: nat,
)
    requires
        bytes.len() <= usize::MAX,
        main_bytes(file).len() <= u32::MAX,
        file_held(
            bytes,
            index.segments,
            index.entries[k as int].segments_start as nat,
            index.entries[k as int].segments_end as nat,
            file,
            44,
        ),
        index.entries[k as int].name_hash == archive::depot_hash(file.path),
        index.custom_paths[k as int] == file.path,
        archive::path_with(
            index.custom_paths,
            archive::depot_hash(file.path),
            index.custom_paths.len(),
        ) == Some(k),
        main_bytes(file).len() <= usize::MAX,
    ensures
        given_back(bytes, index, file, k),
{
    let entry = index.entries[k as int];
    let start = entry.segments_start as int;
    let first = index.segments[start];
    assert(part_held(bytes, first, file_part(file, 0), 44));
    lemma_taken(bytes, first, file_part(file, 0), 44);
    if file.compressed is Some ==> file.compressed->0 == encoder::encoded(main_bytes(file)) {
        archive_frames::law_segment_round_trip(main_bytes(file), file.compressed, first.offset);
    }
    assert forall|s: int| start < s < entry.segments_end implies archive_frames::segment_content(
        taken(bytes, #[trigger] index.segments[s]),
        index.segments[s],
        false,
    ) == Ok::<ContentModel, ArchiveError>(
        ContentModel::Ready(file_part(file, (s - start) as nat).0),
    ) by {
        lemma_taken(bytes, index.segments[s], file_part(file, (s - start) as nat), 44);
    }
}

/// A file of a finished archive is given back.
proof fn lemma_finished_file(
    files: Seq<PackModel>,
    state: PackState,
    floor: nat,
    length: nat,
    k: nat,
)
    requires
        k < files.len(),
        archive_pack::duplicate_from(
            sequence::sorted(archive_pack::path_hashes(files)),
            0,
        ) is None,
        forall|k: int| 0 <= k < files.len() ==> (#[trigger] files[k]).bytes.len() <= usize::MAX,
        archive_pack::finished(state, length).len() <= usize::MAX,
        state.entries.len() == files.len(),
        floor >= 44,
        state.entries[k as int].name_hash == archive::depot_hash(
            archive_pack::ordered(files)[k as int].path,
        ),
        file_held(
            state.out,
            state.segments,
            state.entries[k as int].segments_start as nat,
            state.entries[k as int].segments_end as nat,
            archive_pack::ordered(files)[k as int],
            floor,
        ),
    ensures
        given_back(
            archive_pack::finished(state, length),
            archive_laws::packed_model(
                state,
                archive_pack::paths_of(archive_pack::ordered(files)),
            ),
            archive_pack::ordered(files)[k as int],
            k,
        ),
{
    let order = archive_pack::ordered(files);
    let paths = archive_pack::paths_of(order);
    let bytes = archive_pack::finished(state, length);
    let index = archive_laws::packed_model(state, paths);
    let file = order[k as int];
    let raw = state.entries[k as int];
    assert(index.entries[k as int] == archive::sized_entry(raw, state.segments));
    assert forall|s: int| raw.segments_start <= s < raw.segments_end implies part_held(
        bytes,
        #[trigger] state.segments[s],
        file_part(file, (s - raw.segments_start) as nat),
        44,
    ) by {
        let part = file_part(file, (s - raw.segments_start) as nat);
        assert(part_held(state.out, state.segments[s], part, floor));
        lemma_finished(state, length, state.segments[s].offset as nat, part.0);
    }
    lemma_resolved(files, k);
    assert(paths[k as int] == file.path);
    let hashes = sequence::sorted(archive_pack::path_hashes(files));
    sequence::lemma_sorted(archive_pack::path_hashes(files));
    assert(hashes.contains(hashes[k as int]));
    archive_pack::lemma_file_with(files, hashes[k as int], 0);
    let from = archive_pack::file_with(files, hashes[k as int], 0) as int;
    assert(file == files[from]);
    assert(part_held(bytes, state.segments[raw.segments_start as int], file_part(file, 0), 44));
    lemma_given_back(bytes, index, file, k);
}

/// Packing and reading loses nothing: the index of a packed archive lists each
/// file once, in the order of the hashes, its hash leads to its path, and its
/// segments give back its main part and its buffers. A file that is no CR2W
/// file is its main part.
pub proof fn law_packed_content(files: Seq<PackModel>)
    requires
        archive_pack::packed(files) is Ok,
        archive_pack::packed(files)->Ok_0.len() <= usize::MAX,
        forall|k: int|
            0 <= k < files.len() ==> archive_laws::no_zero_byte((#[trigger] files[k]).path)
                && files[k].bytes.len() <= usize::MAX,
        ({
            let order = archive_pack::ordered(files);
            let state = archive_pack::add_files(
                archive_pack::body_start(order),
                order,
                order.len(),
            )->Ok_0;
            archive_laws::digests_ok(state.entries)
        }),
    ensures
        archive::archive(archive_pack::packed(files)->Ok_0) is Ok,
        ({
            let order = archive_pack::ordered(files);
            let bytes = archive_pack::packed(files)->Ok_0;
            let index = archive::archive(bytes)->Ok_0;
            &&& index.entries.len() == files.len()
            &&& order.len() == files.len()
            &&& forall|k: int|
                0 <= k < files.len() ==> given_back(bytes, index, #[trigger] order[k], k as nat)
            &&& forall|k: int|
                0 <= k < files.len() && !archive_writer::is_cr2w((#[trigger] order[k]).bytes)
                    ==> main_bytes(order[k]) == order[k].bytes && index.entries[k].segments_end
                    == index.entries[k].segments_start + 1
        }),
{
    let order = archive_pack::ordered(files);
    let start = archive_pack::body_start(order);
    let paths = archive_pack::paths_of(order);
    let state = archive_pack::add_files(start, order, order.len())->Ok_0;
    let bytes = archive_pack::packed(files)->Ok_0;
    let length = archive_writer::lxrs_bytes(paths).len();
    let index = archive_laws::packed_model(state, paths);
    archive_laws::law_read_packed(files);
    archive_pack::lemma_files_kept(start, order, order.len());
    archive_laws::lemma_finished_layout(state, paths);
    assert(state.out.len() <= bytes.len());
    lemma_files(start, order, order.len(), state);
    sequence::lemma_sorted(archive_pack::path_hashes(files));
    assert forall|k: int| 0 <= k < files.len() implies given_back(
        bytes,
        index,
        #[trigger] order[k],
        k as nat,
    ) by {
        assert(state.entries[k].name_hash == archive::depot_hash(order[k].path));
        lemma_finished_file(files, state, start.out.len(), length, k as nat);
    }
    assert forall|k: int|
        0 <= k < files.len() && !archive_writer::is_cr2w((#[trigger] order[k]).bytes) implies
        main_bytes(order[k]) == order[k].bytes && index.entries[k].segments_end
        == index.entries[k].segments_start + 1 by {
        assert(given_back(bytes, index, order[k], k as nat));
    }
}

} // verus!
