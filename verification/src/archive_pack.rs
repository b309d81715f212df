//! The layout of a packed archive.

use crate::archive;
use crate::archive::{depot_path_hash, raw_models, ArchiveError, ArchiveSegment, RawEntry, RawModel};
use crate::archive::{ARCHIVE_MAGIC, EXTENDED_HEADER_SIZE};
use crate::archive_laws;
use crate::archive_writer;
use crate::archive_writer::{align_if_needed, build_index_bytes, digest_sha1, should_store_uncompressed, starts_with_cr2w, write_lxrs};
use crate::binary;
use crate::binary::{read_u32_le, write_u32, write_u64};
use crate::kraken::encoder;
use crate::kraken::encode;
use crate::sequence;
use crate::sequence::{append, append_repeated, part, sort_keys, to_vec};
use vstd::prelude::*;

verus! {

/// A file to pack; `compressed` is what a codec made of its main part.
pub struct PackFile {
    pub depot_path: String,
    pub bytes: Vec<u8>,
    pub compressed: Option<Vec<u8>>,
}

/// What a file to pack holds.
pub ghost struct PackModel {
    pub path: Seq<char>,
    pub bytes: Seq<u8>,
    pub compressed: Option<Seq<u8>>,
}

impl View for PackFile {
    type V = PackModel;

    open spec fn view(&self) -> PackModel {
        PackModel {
            path: self.depot_path@,
            bytes: self.bytes@,
            compressed: match self.compressed {
                Some(data) => Some(data@),
                None => None,
            },
        }
    }
}

/// What files to pack hold.
pub open spec fn models(files: Seq<PackFile>) -> Seq<PackModel> {
    files.map_values(|file: PackFile| file@)
}

/// What of a file is worth compressing: its main part, if that is not too short
/// and the file is not one that is stored as it is.
pub open spec fn to_compress(path: Seq<char>, bytes: Seq<u8>) -> Result<
    Option<Seq<u8>>,
    ArchiveError,
> {
    match archive_writer::main_part(bytes) {
        Err(error) => Err(error),
        Ok(main) => if !archive_writer::is_stored(path) && main.len() >= 256 {
            Ok(Some(main))
        } else {
            Ok(None)
        },
    }
}

/// Selects what of a file is worth compressing.
pub fn main_payload(depot_path: &str, bytes: &[u8]) -> (result: Result<
    Option<Vec<u8>>,
    ArchiveError,
>)
    ensures
        match to_compress(depot_path@, bytes@) {
            Err(error) => result matches Err(e) && e == error,
            Ok(None) => result matches Ok(None),
            Ok(Some(main)) => result matches Ok(Some(r)) && r@ == main,
        },
{
    let main: &[u8] = if starts_with_cr2w(bytes) {
        let end: usize = match read_u32_le(bytes, 24) {
            Some(end) => end as usize,
            None => return Err(ArchiveError::InvalidIndex),
        };
        if end > bytes.len() {
            return Err(ArchiveError::InvalidIndex);
        }
        part(bytes, 0, end)
    } else {
        bytes
    };
    if !should_store_uncompressed(depot_path) && main.len() >= 256 {
        Ok(Some(to_vec(main)))
    } else {
        Ok(None)
    }
}

/// Compresses bytes, if that makes them fewer.
pub fn compress_payload(input: &[u8]) -> (result: Option<Vec<u8>>)
    ensures
        if encoder::encoded(input@).len() < input@.len() {
            result matches Some(r) && r@ == encoder::encoded(input@)
        } else {
            result is None
        },
{
    let encoded: Vec<u8> = encode(input);
    if encoded.len() < input.len() {
        Some(encoded)
    } else {
        None
    }
}

// ---------------------------------------------------------------------------
// Segments
// ---------------------------------------------------------------------------

/// A compressed payload with its mark and its decoded size.
pub open spec fn kark(size: nat, compressed: Seq<u8>) -> Seq<u8> {
    seq![75u8, 65u8, 82u8, 75u8] + binary::le_bytes(size, 4) + compressed
}

/// How a payload is stored: compressed, if that saves more than the mark takes.
pub open spec fn stored_payload(bytes: Seq<u8>, compressed: Option<Seq<u8>>) -> Seq<u8> {
    match compressed {
        Some(data) => if data.len() + 8 < bytes.len() {
            kark(bytes.len(), data)
        } else {
            bytes
        },
        None => bytes,
    }
}

/// An archive that is being packed.
pub ghost struct PackState {
    pub out: Seq<u8>,
    pub segments: Seq<ArchiveSegment>,
    pub entries: Seq<RawModel>,
}

/// Appends a payload as a segment.
pub open spec fn add_payload(state: PackState, bytes: Seq<u8>, compressed: Option<Seq<u8>>) -> Result<
    PackState,
    ArchiveError,
> {
    let payload = stored_payload(bytes, compressed);
    if bytes.len() > 0xffff_ffff {
        Err(ArchiveError::CountOverflow)
    } else {
        Ok(
            PackState {
                out: state.out + payload,
                segments: state.segments.push(
                    ArchiveSegment {
                        offset: state.out.len() as u64,
                        compressed_size: payload.len() as u32,
                        size: bytes.len() as u32,
                    },
                ),
                entries: state.entries,
            },
        )
    }
}

/// Appends the buffers of a CR2W file from `i` on as segments.
pub open spec fn add_buffers(state: PackState, bytes: Seq<u8>, table: nat, i: nat, count: nat) -> Result<
    PackState,
    ArchiveError,
>
    decreases count - i,
{
    if i >= count {
        Ok(state)
    } else {
        let info = table + 24 * i;
        match (
            binary::number_at(bytes, info + 8, 4),
            binary::number_at(bytes, info + 12, 4),
            binary::number_at(bytes, info + 16, 4),
        ) {
            (Some(offset), Some(disk_size), Some(memory_size)) => if offset + disk_size
                > bytes.len() {
                Err(ArchiveError::InvalidIndex)
            } else {
                add_buffers(
                    PackState {
                        out: state.out + bytes.subrange(offset as int, (offset + disk_size) as int),
                        segments: state.segments.push(
                            ArchiveSegment {
                                offset: state.out.len() as u64,
                                compressed_size: disk_size as u32,
                                size: memory_size as u32,
                            },
                        ),
                        entries: state.entries,
                    },
                    bytes,
                    table,
                    i + 1,
                    count,
                )
            },
            _ => Err(ArchiveError::InvalidIndex),
        }
    }
}

/// Appends the segments of a file; with them comes the number of buffers after
/// the first.
pub open spec fn add_segments(state: PackState, file: PackModel) -> Result<
    (PackState, nat),
    ArchiveError,
> {
    if archive_writer::is_cr2w(file.bytes) {
        match (
            archive_writer::main_part(file.bytes),
            binary::number_at(file.bytes, 100, 4),
            binary::number_at(file.bytes, 104, 4),
        ) {
            (Ok(main), Some(table), Some(count)) => match add_payload(
                state,
                main,
                file.compressed,
            ) {
                Err(error) => Err(error),
                Ok(state) => match add_buffers(state, file.bytes, table, 0, count) {
                    Err(error) => Err(error),
                    Ok(state) => Ok(
                        (
                            state,
                            if count > 0 {
                                (count - 1) as nat
                            } else {
                                0
                            },
                        ),
                    ),
                },
            },
            _ => Err(ArchiveError::InvalidIndex),
        }
    } else {
        let aligned = if archive_writer::is_streamed(file.path) {
            PackState {
                out: state.out + sequence::repeated(
                    0,
                    archive_writer::page_padding(state.out.len()),
                ),
                ..state
            }
        } else {
            state
        };
        match add_payload(aligned, file.bytes, file.compressed) {
            Err(error) => Err(error),
            Ok(state) => Ok((state, 0)),
        }
    }
}

/// Appends a file and its entry.
pub open spec fn add_file(state: PackState, file: PackModel) -> Result<PackState, ArchiveError> {
    if state.segments.len() > 0xffff_ffff {
        Err(ArchiveError::CountOverflow)
    } else {
        match add_segments(state, file) {
            Err(error) => Err(error),
            Ok((after, inline_buffers)) => if after.segments.len() > 0xffff_ffff {
                Err(ArchiveError::CountOverflow)
            } else {
                Ok(
                    PackState {
                        entries: after.entries.push(
                            RawModel {
                                name_hash: archive::depot_hash(file.path),
                                timestamp_filetime: 0,
                                inline_buffer_segments: inline_buffers as u32,
                                segments_start: state.segments.len() as u32,
                                segments_end: after.segments.len() as u32,
                                dependencies_start: 0,
                                dependencies_end: 0,
                                sha1: archive_writer::sha1_digest(file.bytes),
                            },
                        ),
                        ..after
                    },
                )
            },
        }
    }
}

/// Appends the first `n` files.
pub open spec fn add_files(state: PackState, files: Seq<PackModel>, n: nat) -> Result<
    PackState,
    ArchiveError,
>
    decreases n,
{
    if n == 0 {
        Ok(state)
    } else {
        match add_files(state, files, (n - 1) as nat) {
            Err(error) => Err(error),
            Ok(state) => add_file(state, files[n - 1]),
        }
    }
}

// ---------------------------------------------------------------------------
// The whole archive
// ---------------------------------------------------------------------------

/// The hashes of all depot paths.
pub open spec fn path_hashes(files: Seq<PackModel>) -> Seq<u64> {
    files.map_values(|file: PackModel| archive::depot_hash(file.path))
}

/// The first of the sorted hashes from `i` on that comes twice.
pub open spec fn duplicate_from(hashes: Seq<u64>, i: nat) -> Option<u64>
    decreases hashes.len() - i,
{
    if i + 1 >= hashes.len() {
        None
    } else if hashes[i as int] == hashes[i as int + 1] {
        Some(hashes[i as int])
    } else {
        duplicate_from(hashes, i + 1)
    }
}

/// The first file from `i` on with this hash.
pub open spec fn file_with(files: Seq<PackModel>, hash: u64, i: nat) -> nat
    decreases files.len() - i,
{
    if i >= files.len() || archive::depot_hash(files[i as int].path) == hash {
        i
    } else {
        file_with(files, hash, i + 1)
    }
}

/// The files in the order of their hashes.
pub open spec fn ordered(files: Seq<PackModel>) -> Seq<PackModel> {
    sequence::sorted(path_hashes(files)).map_values(|hash: u64| files[file_with(files, hash, 0) as int])
}

/// The paths of files.
pub open spec fn paths_of(files: Seq<PackModel>) -> Seq<Seq<char>> {
    files.map_values(|file: PackModel| file.path)
}

/// The header of an archive.
pub open spec fn header_bytes(
    index_position: nat,
    index_size: nat,
    file_size: nat,
    custom_data_length: nat,
) -> Seq<u8> {
    binary::le_bytes(ARCHIVE_MAGIC as nat, 4) + binary::le_bytes(12, 4) + binary::le_bytes(
        index_position,
        8,
    ) + binary::le_bytes(index_size, 4) + binary::le_bytes(0, 8) + binary::le_bytes(0, 4)
        + binary::le_bytes(file_size, 8) + binary::le_bytes(custom_data_length, 4)
}

/// Bytes up to the next page.
pub open spec fn padded(bytes: Seq<u8>) -> Seq<u8> {
    bytes + sequence::repeated(0, archive_writer::page_padding(bytes.len()))
}

/// The archive that files are packed into, before its header is filled in.
pub open spec fn body_start(files: Seq<PackModel>) -> PackState {
    PackState {
        out: sequence::repeated(0, EXTENDED_HEADER_SIZE as nat) + archive_writer::lxrs_bytes(
            paths_of(files),
        ),
        segments: seq![],
        entries: seq![],
    }
}

/// The archive with its index and header.
pub open spec fn finished(state: PackState, custom_data_length: nat) -> Seq<u8> {
    let before = padded(state.out);
    let index = archive_writer::index_bytes(state.entries, state.segments);
    let whole = padded(before + index);
    header_bytes(before.len(), index.len(), whole.len(), custom_data_length) + whole.subrange(
        44,
        whole.len() as int,
    )
}

/// The packed archive.
pub open spec fn packed(files: Seq<PackModel>) -> Result<Seq<u8>, ArchiveError> {
    match duplicate_from(sequence::sorted(path_hashes(files)), 0) {
        Some(hash) => Err(ArchiveError::DuplicateHash { hash }),
        None => {
            let files = ordered(files);
            if !archive_writer::lxrs_fits(paths_of(files)) {
                Err(ArchiveError::CountOverflow)
            } else {
                match add_files(body_start(files), files, files.len()) {
                    Err(error) => Err(error),
                    Ok(state) => if !archive_writer::index_fits(state.entries, state.segments)
                        || archive_writer::index_bytes(state.entries, state.segments).len()
                        > 0xffff_ffff {
                        Err(ArchiveError::CountOverflow)
                    } else {
                        Ok(
                            finished(
                                state,
                                archive_writer::lxrs_bytes(paths_of(files)).len(),
                            ),
                        )
                    },
                }
            }
        },
    }
}

// ---------------------------------------------------------------------------
// Packing
// ---------------------------------------------------------------------------

struct PackWriter {
    output: Vec<u8>,
    segments: Vec<ArchiveSegment>,
    entries: Vec<RawEntry>,
}

impl View for PackWriter {
    type V = PackState;

    closed spec fn view(&self) -> PackState {
        PackState {
            out: self.output@,
            segments: self.segments@,
            entries: raw_models(self.entries@),
        }
    }
}

fn write_payload_segment(writer: &mut PackWriter, bytes: &[u8], compressed: &Option<Vec<u8>>) -> (result:
    Result<(), ArchiveError>)
    ensures
        match add_payload(
            old(writer)@,
            bytes@,
            match compressed {
                Some(data) => Some(data@),
                None => None,
            },
        ) {
            Err(error) => result matches Err(e) && e == error,
            Ok(state) => result is Ok && final(writer)@ == state,
        },
{
    if bytes.len() > 0xffff_ffff {
        return Err(ArchiveError::CountOverflow);
    }
    let ghost before = writer.output@;
    let offset: u64 = writer.output.len() as u64;
    let size: u32 = bytes.len() as u32;
    let mut length: u32 = size;
    let mut done: bool = false;
    if let Some(data) = compressed {
        if data.len() < bytes.len() && bytes.len() - data.len() > 8 {
            writer.output.push(75);
            writer.output.push(65);
            writer.output.push(82);
            writer.output.push(75);
            write_u32(&mut writer.output, size);
            append(&mut writer.output, data);
            length = (data.len() + 8) as u32;
            done = true;
            proof {
                binary::lemma_le_bytes_len(bytes@.len(), 4);
                assert(writer.output@ =~= before + kark(bytes@.len(), data@));
            }
        }
    }
    if !done {
        append(&mut writer.output, bytes);
    }
    writer.segments.push(ArchiveSegment { offset, compressed_size: length, size });
    Ok(())
}

fn write_buffers(writer: &mut PackWriter, bytes: &[u8], table: u32, count: u32) -> (result: Result<
    (),
    ArchiveError,
>)
    ensures
        match add_buffers(old(writer)@, bytes@, table as nat, 0, count as nat) {
            Err(error) => result matches Err(e) && e == error,
            Ok(state) => result is Ok && final(writer)@ == state,
        },
{
    let mut i: u32 = 0;
    let size: usize = bytes.len();
    while i < count
        invariant
            i <= count,
            size == bytes@.len(),
            add_buffers(old(writer)@, bytes@, table as nat, 0, count as nat) == add_buffers(
                writer@,
                bytes@,
                table as nat,
                i as nat,
                count as nat,
            ),
        decreases count - i,
    {
        let info: u64 = table as u64 + 24 * i as u64;
        if info > size as u64 || size as u64 - info < 20 {
            return Err(ArchiveError::InvalidIndex);
        }
        let at: usize = info as usize;
        let (offset, disk_size, memory_size): (u32, u32, u32) = match (
            read_u32_le(bytes, at + 8),
            read_u32_le(bytes, at + 12),
            read_u32_le(bytes, at + 16),
        ) {
            (Some(offset), Some(disk_size), Some(memory_size)) => (offset, disk_size, memory_size),
            _ => return Err(ArchiveError::InvalidIndex),
        };
        if offset as u64 + disk_size as u64 > size as u64 {
            return Err(ArchiveError::InvalidIndex);
        }
        let archive_offset: u64 = writer.output.len() as u64;
        append(
            &mut writer.output,
            part(bytes, offset as usize, (offset as u64 + disk_size as u64) as usize),
        );
        writer.segments.push(
            ArchiveSegment {
                offset: archive_offset,
                compressed_size: disk_size,
                size: memory_size,
            },
        );
        i = i + 1;
    }
    Ok(())
}

fn pad_to_page(output: &mut Vec<u8>)
    ensures
        final(output)@ == padded(old(output)@),
{
    let padding: usize = (4096 - output.len() % 4096) % 4096;
    let mut left: usize = padding;
    let ghost start = output@;
    assert(start + sequence::repeated(0, 0) =~= start);
    while left > 0
        invariant
            left <= padding,
            output@ == start + sequence::repeated(0, (padding - left) as nat),
        decreases left,
    {
        output.push(0);
        left = left - 1;
        assert(output@ =~= start + sequence::repeated(0, (padding - left) as nat));
    }
}

fn write_segments(writer: &mut PackWriter, file: &PackFile) -> (result: Result<u32, ArchiveError>)
    ensures
        match add_segments(old(writer)@, file@) {
            Err(error) => result matches Err(e) && e == error,
            Ok((state, inline_buffers)) => result matches Ok(count) && count == inline_buffers
                && final(writer)@ == state,
        },
{
    let bytes: &[u8] = &file.bytes;
    if starts_with_cr2w(bytes) {
        let (end, table, count): (u32, u32, u32) = match (
            read_u32_le(bytes, 24),
            read_u32_le(bytes, 100),
            read_u32_le(bytes, 104),
        ) {
            (Some(end), Some(table), Some(count)) => (end, table, count),
            _ => return Err(ArchiveError::InvalidIndex),
        };
        if end as usize > bytes.len() {
            return Err(ArchiveError::InvalidIndex);
        }
        match write_payload_segment(writer, part(bytes, 0, end as usize), &file.compressed) {
            Ok(()) => {},
            Err(error) => return Err(error),
        }
        match write_buffers(writer, bytes, table, count) {
            Ok(()) => {},
            Err(error) => return Err(error),
        }
        if count > 0 {
            Ok(count - 1)
        } else {
            Ok(0)
        }
    } else {
        if align_if_needed(file.depot_path.as_str()) {
            pad_to_page(&mut writer.output);
        }
        match write_payload_segment(writer, bytes, &file.compressed) {
            Ok(()) => Ok(0),
            Err(error) => Err(error),
        }
    }
}

fn write_file(writer: &mut PackWriter, file: &PackFile) -> (result: Result<(), ArchiveError>)
    ensures
        match add_file(old(writer)@, file@) {
            Err(error) => result matches Err(e) && e == error,
            Ok(state) => result is Ok && final(writer)@ == state,
        },
        archive_laws::digests_ok(old(writer)@.entries) && result is Ok ==> archive_laws::digests_ok(
            final(writer)@.entries,
        ),
{
    if writer.segments.len() > 0xffff_ffff {
        return Err(ArchiveError::CountOverflow);
    }
    let segments_start: u32 = writer.segments.len() as u32;
    let inline_buffer_segments: u32 = match write_segments(writer, file) {
        Ok(count) => count,
        Err(error) => return Err(error),
    };
    if writer.segments.len() > 0xffff_ffff {
        return Err(ArchiveError::CountOverflow);
    }
    let ghost before = writer@.entries;
    proof {
        archive_laws::lemma_segments_grow(old(writer)@, file@);
    }
    writer.entries.push(
        RawEntry {
            name_hash: depot_path_hash(file.depot_path.as_str()),
            timestamp_filetime: 0,
            inline_buffer_segments,
            segments_start,
            segments_end: writer.segments.len() as u32,
            dependencies_start: 0,
            dependencies_end: 0,
            sha1: digest_sha1(&file.bytes),
        },
    );
    proof {
        assert(writer@.entries =~= before.push(writer.entries@.last()@));
    }
    Ok(())
}

fn find_file(files: &[PackFile], hash: u64) -> (result: usize)
    ensures
        result == file_with(models(files@), hash, 0),
        result <= files@.len(),
{
    let ghost all = models(files@);
    let mut i: usize = 0;
    while i < files.len()
        invariant
            i <= files@.len(),
            all == models(files@),
            file_with(all, hash, 0) == file_with(all, hash, i as nat),
        decreases files@.len() - i,
    {
        assert(all[i as int] == files@[i as int]@);
        if depot_path_hash(files[i].depot_path.as_str()) == hash {
            return i;
        }
        i = i + 1;
    }
    i
}

pub proof fn lemma_file_with(files: Seq<PackModel>, hash: u64, i: nat)
    requires
        path_hashes(files).contains(hash),
        forall|k: int| 0 <= k < i && k < files.len() ==> archive::depot_hash(#[trigger] files[k].path) != hash,
        i <= files.len(),
    ensures
        file_with(files, hash, i) < files.len(),
        archive::depot_hash(files[file_with(files, hash, i) as int].path) == hash,
    decreases files.len() - i,
{
    if i < files.len() && archive::depot_hash(files[i as int].path) != hash {
        lemma_file_with(files, hash, i + 1);
    } else if i == files.len() {
        let k = choose|k: int| 0 <= k < path_hashes(files).len() && path_hashes(files)[k] == hash;
        assert(archive::depot_hash(files[k].path) == hash);
        assert(false);
    }
}

fn find_duplicate(hashes: &[u64]) -> (result: Option<u64>)
    ensures
        result == duplicate_from(hashes@, 0),
{
    let mut i: usize = 0;
    while i < hashes.len() && hashes.len() - i > 1
        invariant
            i <= hashes@.len(),
            duplicate_from(hashes@, 0) == duplicate_from(hashes@, i as nat),
        decreases hashes@.len() - i,
    {
        if hashes[i] == hashes[i + 1] {
            return Some(hashes[i]);
        }
        i = i + 1;
    }
    None
}

/// Packs files into an archive.
#[verifier::rlimit(40)]
pub fn pack(files: &[PackFile]) -> (result: Result<Vec<u8>, ArchiveError>)
    ensures
        match packed(models(files@)) {
            Err(error) => result matches Err(e) && e == error,
            Ok(bytes) => result matches Ok(r) && r@ == bytes,
        },
        result is Ok ==> archive_laws::digests_ok(
            (add_files(
                body_start(ordered(models(files@))),
                ordered(models(files@)),
                files@.len(),
            )->Ok_0).entries,
        ),
{
    let ghost all = models(files@);
    let mut hashes: Vec<u64> = Vec::new();
    let mut i: usize = 0;
    while i < files.len()
        invariant
            i <= files@.len(),
            all == models(files@),
            hashes@ =~= path_hashes(all).subrange(0, i as int),
        decreases files@.len() - i,
    {
        assert(all[i as int] == files@[i as int]@);
        hashes.push(depot_path_hash(files[i].depot_path.as_str()));
        i = i + 1;
    }
    assert(hashes@ =~= path_hashes(all));
    let sorted: Vec<u64> = sort_keys(&hashes);
    if let Some(hash) = find_duplicate(&sorted) {
        return Err(ArchiveError::DuplicateHash { hash });
    }
    let ghost order = ordered(all);
    let mut indexes: Vec<usize> = Vec::new();
    let mut paths: Vec<String> = Vec::new();
    i = 0;
    while i < sorted.len()
        invariant
            i <= sorted@.len(),
            all == models(files@),
            order == ordered(all),
            sorted@ == sequence::sorted(path_hashes(all)),
            indexes@.len() == i,
            forall|k: int|
                0 <= k < i ==> #[trigger] indexes@[k] < files@.len() && files@[indexes@[k] as int]@
                    == order[k],
            archive::texts(paths@) =~= paths_of(order).subrange(0, i as int),
        decreases sorted@.len() - i,
    {
        let index: usize = find_file(files, sorted[i]);
        proof {
            sequence::lemma_sorted(path_hashes(all));
            assert(sequence::sorted(path_hashes(all)).contains(sorted@[i as int]));
            assert(path_hashes(all).contains(sorted@[i as int]));
            lemma_file_with(all, sorted@[i as int], 0);
            assert(order[i as int] == all[index as int]);
            assert(all[index as int] == files@[index as int]@);
        }
        indexes.push(index);
        let path: String = files[index].depot_path.clone();
        proof {
            assert(path@ == order[i as int].path);
            assert(archive::texts(paths@.push(path)) =~= archive::texts(paths@).push(path@));
            assert(paths_of(order)[i as int] == path@);
        }
        paths.push(path);
        i = i + 1;
    }
    proof {
        assert(order.len() == sorted@.len());
        assert(archive::texts(paths@) =~= paths_of(order));
    }
    let mut output: Vec<u8> = Vec::new();
    append_repeated(&mut output, 0, EXTENDED_HEADER_SIZE);
    let custom_data_length: u32 = match write_lxrs(&mut output, &paths) {
        Ok(length) => length,
        Err(error) => return Err(error),
    };
    let mut writer: PackWriter = PackWriter { output, segments: Vec::new(), entries: Vec::new() };
    proof {
        assert(writer@.entries =~= Seq::<RawModel>::empty());
        assert(writer@.out =~= body_start(order).out);
        assert(writer@ == body_start(order));
    }
    i = 0;
    while i < indexes.len()
        invariant
            i <= indexes@.len(),
            indexes@.len() == order.len(),
            all == models(files@),
            order == ordered(all),
            custom_data_length == archive_writer::lxrs_bytes(paths_of(order)).len(),
            archive_writer::lxrs_fits(paths_of(order)),
            duplicate_from(sequence::sorted(path_hashes(all)), 0) is None,
            forall|k: int|
                0 <= k < indexes@.len() ==> #[trigger] indexes@[k] < files@.len()
                    && files@[indexes@[k] as int]@ == order[k],
            add_files(body_start(order), order, i as nat) == Ok::<PackState, ArchiveError>(
                writer@,
            ),
            archive_laws::digests_ok(writer@.entries),
        decreases indexes@.len() - i,
    {
        match write_file(&mut writer, &files[indexes[i]]) {
            Ok(()) => {},
            Err(error) => {
                proof {
                    lemma_add_files_error(body_start(order), order, (i + 1) as nat, order.len());
                }
                return Err(error);
            },
        }
        i = i + 1;
    }
    proof {
        lemma_files_kept(body_start(order), order, order.len());
    }
    finish_archive(writer, custom_data_length)
}

/// What has been written stays.
pub open spec fn keeps(before: PackState, after: PackState) -> bool {
    sequence::stands(after.out, 0, before.out)
}

proof fn lemma_keeps_trans(a: PackState, b: PackState, c: PackState)
    requires
        keeps(a, b),
        keeps(b, c),
    ensures
        keeps(a, c),
{
    sequence::lemma_stands_within(c.out, 0, b.out, 0, a.out);
}

proof fn lemma_keeps_more(a: PackState, b: PackState, more: Seq<u8>)
    requires
        b.out == a.out + more,
    ensures
        keeps(a, b),
{
    assert(b.out.subrange(0, a.out.len() as int) =~= a.out);
}

pub proof fn lemma_buffers_kept(state: PackState, bytes: Seq<u8>, table: nat, i: nat, count: nat)
    ensures
        add_buffers(state, bytes, table, i, count) matches Ok(after) ==> keeps(state, after),
    decreases count - i,
{
    if i < count {
        let info = table + 24 * i;
        match (
            binary::number_at(bytes, info + 8, 4),
            binary::number_at(bytes, info + 12, 4),
            binary::number_at(bytes, info + 16, 4),
        ) {
            (Some(offset), Some(disk_size), Some(memory_size)) => {
                if offset + disk_size <= bytes.len() {
                    let more = bytes.subrange(offset as int, (offset + disk_size) as int);
                    let next = PackState {
                        out: state.out + more,
                        segments: state.segments.push(
                            ArchiveSegment {
                                offset: state.out.len() as u64,
                                compressed_size: disk_size as u32,
                                size: memory_size as u32,
                            },
                        ),
                        entries: state.entries,
                    };
                    lemma_buffers_kept(next, bytes, table, i + 1, count);
                    lemma_keeps_more(state, next, more);
                    match add_buffers(next, bytes, table, i + 1, count) {
                        Ok(after) => {
                            lemma_keeps_trans(state, next, after);
                        },
                        Err(_) => {},
                    }
                }
            },
            _ => {},
        }
    } else {
        lemma_keeps_more(state, state, seq![]);
        assert(state.out + Seq::<u8>::empty() =~= state.out);
    }
}

pub proof fn lemma_segments_kept(state: PackState, file: PackModel)
    ensures
        add_segments(state, file) matches Ok((after, _)) ==> keeps(state, after),
{
    if archive_writer::is_cr2w(file.bytes) {
        match (
            archive_writer::main_part(file.bytes),
            binary::number_at(file.bytes, 100, 4),
            binary::number_at(file.bytes, 104, 4),
        ) {
            (Ok(main), Some(table), Some(count)) => {
                match add_payload(state, main, file.compressed) {
                    Err(_) => {},
                    Ok(next) => {
                        lemma_keeps_more(state, next, stored_payload(main, file.compressed));
                        lemma_buffers_kept(next, file.bytes, table, 0, count);
                        match add_buffers(next, file.bytes, table, 0, count) {
                            Ok(after) => {
                                lemma_keeps_trans(state, next, after);
                            },
                            Err(_) => {},
                        }
                    },
                }
            },
            _ => {},
        }
    } else {
        let payload = stored_payload(file.bytes, file.compressed);
        let padding = sequence::repeated(0, archive_writer::page_padding(state.out.len()));
        match add_segments(state, file) {
            Ok((after, _)) => {
                if archive_writer::is_streamed(file.path) {
                    assert(after.out =~= state.out + (padding + payload));
                    lemma_keeps_more(state, after, padding + payload);
                } else {
                    lemma_keeps_more(state, after, payload);
                }
            },
            Err(_) => {},
        }
    }
}

pub proof fn lemma_files_kept(state: PackState, files: Seq<PackModel>, n: nat)
    ensures
        add_files(state, files, n) matches Ok(after) ==> keeps(state, after),
    decreases n,
{
    if n > 0 {
        lemma_files_kept(state, files, (n - 1) as nat);
        match add_files(state, files, (n - 1) as nat) {
            Err(_) => {},
            Ok(before) => {
                lemma_segments_kept(before, files[n - 1]);
                match add_file(before, files[n - 1]) {
                    Err(_) => {},
                    Ok(after) => {
                        lemma_keeps_trans(state, before, after);
                    },
                }
            },
        }
    } else {
        lemma_keeps_more(state, state, seq![]);
        assert(state.out + Seq::<u8>::empty() =~= state.out);
    }
}

proof fn lemma_add_files_error(state: PackState, files: Seq<PackModel>, i: nat, n: nat)
    requires
        i <= n,
        add_files(state, files, i) is Err,
    ensures
        add_files(state, files, n) == add_files(state, files, i),
    decreases n - i,
{
    if i < n {
        lemma_add_files_error(state, files, i, (n - 1) as nat);
    }
}

/// Appends the index and fills in the header.
fn finish_archive(writer: PackWriter, custom_data_length: u32) -> (result: Result<
    Vec<u8>,
    ArchiveError,
>)
    requires
        writer@.out.len() >= 44,
    ensures
        if !archive_writer::index_fits(writer@.entries, writer@.segments)
            || archive_writer::index_bytes(writer@.entries, writer@.segments).len() > 0xffff_ffff {
            result matches Err(error) && error == ArchiveError::CountOverflow
        } else {
            result matches Ok(bytes) && bytes@ == finished(writer@, custom_data_length as nat)
        },
{
    let ghost state = writer@;
    let mut output: Vec<u8> = writer.output;
    pad_to_page(&mut output);
    let index_position: u64 = output.len() as u64;
    let index: Vec<u8> = match build_index_bytes(&writer.entries, &writer.segments) {
        Ok(index) => index,
        Err(error) => return Err(error),
    };
    append(&mut output, &index);
    if index.len() > 0xffff_ffff {
        return Err(ArchiveError::CountOverflow);
    }
    pad_to_page(&mut output);
    let file_size: u64 = output.len() as u64;
    let mut result: Vec<u8> = Vec::new();
    write_u32(&mut result, ARCHIVE_MAGIC);
    write_u32(&mut result, 12);
    write_u64(&mut result, index_position);
    write_u32(&mut result, index.len() as u32);
    write_u64(&mut result, 0);
    write_u32(&mut result, 0);
    write_u64(&mut result, file_size);
    write_u32(&mut result, custom_data_length);
    append(&mut result, part(&output, 44, output.len()));
    proof {
        assert(result@ =~= finished(state, custom_data_length as nat));
    }
    Ok(result)
}

} // verus!
