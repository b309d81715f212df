//! The index of a `.archive` container, and what its segments hold.

use crate::binary;
use crate::binary::{read_i64_le, read_u32_le, read_u64_le};
use crate::sequence;
use crate::sequence::part;
use crate::text;
use crate::text::{chars_of, from_utf8_lossy, push_char, replace_char, text_of, to_lowercase};
use vstd::prelude::*;
use vstd::utf8;

verus! {

/// Little-endian integer representation of `RDAR`.
pub const ARCHIVE_MAGIC: u32 = 1_380_009_042;

/// Little-endian integer representation of the custom path table's magic.
pub const LXRS_MAGIC: u32 = 0x4c58_5253;

/// Where the custom path table starts.
pub const EXTENDED_HEADER_SIZE: usize = 0xac;

/// Reports malformed archives and trees that cannot be packed.
#[derive(Debug, Clone, Copy, PartialEq, Eq, Structural)]
pub enum ArchiveError {
    /// The archive ends before a field that it announces.
    Truncated,
    /// Not an archive.
    InvalidMagic { actual: u32 },
    /// The index is outside the file.
    InvalidIndex,
    /// An entry references segments that are not there.
    InvalidSegmentRange { entry: usize, start: u32, end: u32 },
    /// A table is too large.
    CountOverflow,
    /// An entry has no resolvable depot path.
    UnresolvedPath { hash: u64 },
    /// A path leaves the archive root.
    InvalidDepotPath,
    /// Two depot paths have the same hash.
    DuplicateHash { hash: u64 },
}

#[derive(Debug, Clone, Copy, PartialEq, Eq, Structural)]
pub struct ArchiveHeader {
    pub version: u32,
    pub index_position: u64,
    pub index_size: u32,
    pub debug_position: u64,
    pub debug_size: u32,
    pub file_size: u64,
}

#[derive(Debug, Clone, Copy, PartialEq, Eq, Structural)]
pub struct ArchiveSegment {
    pub offset: u64,
    pub compressed_size: u32,
    pub size: u32,
}

#[derive(Debug)]
pub struct ArchiveEntry {
    pub name_hash: u64,
    pub timestamp_filetime: i64,
    pub inline_buffer_segments: u32,
    pub segments_start: u32,
    pub segments_end: u32,
    pub dependencies_start: u32,
    pub dependencies_end: u32,
    pub sha1: String,
    pub compressed_size: u64,
    pub size: u64,
}

#[derive(Debug)]
pub struct ArchiveIndex {
    pub header: ArchiveHeader,
    pub file_table_offset: u32,
    pub file_table_size: u32,
    pub crc: u64,
    pub entries: Vec<ArchiveEntry>,
    pub segments: Vec<ArchiveSegment>,
    pub segment_count: u32,
    pub dependency_count: u32,
    pub custom_paths: Vec<String>,
}

/// What an entry holds.
pub ghost struct EntryModel {
    pub name_hash: u64,
    pub timestamp_filetime: i64,
    pub inline_buffer_segments: u32,
    pub segments_start: u32,
    pub segments_end: u32,
    pub dependencies_start: u32,
    pub dependencies_end: u32,
    pub sha1: Seq<char>,
    pub compressed_size: nat,
    pub size: nat,
}

/// What an index holds.
pub ghost struct ArchiveModel {
    pub header: ArchiveHeader,
    pub file_table_offset: u32,
    pub file_table_size: u32,
    pub crc: u64,
    pub entries: Seq<EntryModel>,
    pub segments: Seq<ArchiveSegment>,
    pub segment_count: u32,
    pub dependency_count: u32,
    pub custom_paths: Seq<Seq<char>>,
}

/// An entry as it stands in the file table.
#[derive(Debug)]
pub struct RawEntry {
    pub name_hash: u64,
    pub timestamp_filetime: i64,
    pub inline_buffer_segments: u32,
    pub segments_start: u32,
    pub segments_end: u32,
    pub dependencies_start: u32,
    pub dependencies_end: u32,
    pub sha1: Vec<u8>,
}

/// What such an entry holds.
pub ghost struct RawModel {
    pub name_hash: u64,
    pub timestamp_filetime: i64,
    pub inline_buffer_segments: u32,
    pub segments_start: u32,
    pub segments_end: u32,
    pub dependencies_start: u32,
    pub dependencies_end: u32,
    pub sha1: Seq<u8>,
}

impl View for ArchiveEntry {
    type V = EntryModel;

    open spec fn view(&self) -> EntryModel {
        EntryModel {
            name_hash: self.name_hash,
            timestamp_filetime: self.timestamp_filetime,
            inline_buffer_segments: self.inline_buffer_segments,
            segments_start: self.segments_start,
            segments_end: self.segments_end,
            dependencies_start: self.dependencies_start,
            dependencies_end: self.dependencies_end,
            sha1: self.sha1@,
            compressed_size: self.compressed_size as nat,
            size: self.size as nat,
        }
    }
}

impl View for ArchiveIndex {
    type V = ArchiveModel;

    open spec fn view(&self) -> ArchiveModel {
        ArchiveModel {
            header: self.header,
            file_table_offset: self.file_table_offset,
            file_table_size: self.file_table_size,
            crc: self.crc,
            entries: self.entries@.map_values(|entry: ArchiveEntry| entry@),
            segments: self.segments@,
            segment_count: self.segment_count,
            dependency_count: self.dependency_count,
            custom_paths: texts(self.custom_paths@),
        }
    }
}

impl View for RawEntry {
    type V = RawModel;

    open spec fn view(&self) -> RawModel {
        RawModel {
            name_hash: self.name_hash,
            timestamp_filetime: self.timestamp_filetime,
            inline_buffer_segments: self.inline_buffer_segments,
            segments_start: self.segments_start,
            segments_end: self.segments_end,
            dependencies_start: self.dependencies_start,
            dependencies_end: self.dependencies_end,
            sha1: self.sha1@,
        }
    }
}

/// The texts of a list.
pub open spec fn texts(list: Seq<String>) -> Seq<Seq<char>> {
    list.map_values(|text: String| text@)
}

// ---------------------------------------------------------------------------
// Depot paths
// ---------------------------------------------------------------------------

/// A character that is cut off both ends of a path.
pub open spec fn is_trimmed(c: char) -> bool {
    c == '\'' || c == '"' || c == '/' || c == '\\' || c == ' ' || c == '\n' || c == '\r'
}

/// A text without such characters at its start.
pub open spec fn trimmed_start(path: Seq<char>) -> Seq<char>
    decreases path.len(),
{
    if path.len() > 0 && is_trimmed(path[0]) {
        trimmed_start(path.drop_first())
    } else {
        path
    }
}

/// A text without such characters at its end.
pub open spec fn trimmed_end(path: Seq<char>) -> Seq<char>
    decreases path.len(),
{
    if path.len() > 0 && is_trimmed(path.last()) {
        trimmed_end(path.drop_last())
    } else {
        path
    }
}

/// A path with backslashes, in lower case, and nothing around it.
pub open spec fn normalized_path(path: Seq<char>) -> Seq<char> {
    text::lowercase(text::replaced(trimmed_end(trimmed_start(path)), '/', '\\'))
}

/// The offset basis of the 64-bit FNV-1a hash.
pub const FNV_OFFSET: u64 = 0xcbf2_9ce4_8422_2325;

/// The prime of the 64-bit FNV-1a hash.
pub const FNV_PRIME: u64 = 0x0000_0100_0000_01b3;

/// One step of the FNV-1a hash.
pub open spec fn fnv_step(hash: u64, byte: u8) -> u64 {
    (((hash ^ (byte as u64)) as nat * FNV_PRIME as nat) % 0x1_0000_0000_0000_0000) as u64
}

/// The FNV-1a hash of bytes, of which repeated backslashes count once.
pub open spec fn path_hash(bytes: Seq<u8>) -> u64
    decreases bytes.len(),
{
    if bytes.len() == 0 {
        FNV_OFFSET
    } else if bytes.last() == 92 && bytes.len() > 1 && bytes[bytes.len() - 2] == 92 {
        path_hash(bytes.drop_last())
    } else {
        fnv_step(path_hash(bytes.drop_last()), bytes.last())
    }
}

/// The hash of a depot path.
pub open spec fn depot_hash(path: Seq<char>) -> u64 {
    path_hash(utf8::encode_utf8(normalized_path(path)))
}

fn is_trimmed_char(c: char) -> (result: bool)
    ensures
        result == is_trimmed(c),
{
    c == '\'' || c == '"' || c == '/' || c == '\\' || c == ' ' || c == '\n' || c == '\r'
}

/// An ASCII path with backslashes, in lower case, and nothing around it.
pub open spec fn normalized_ascii(path: Seq<char>) -> Seq<char> {
    text::ascii_lower(text::replaced(trimmed_end(trimmed_start(path)), '/', '\\'))
}

/// Calculates the normalized depot-path hash.
pub fn depot_path_hash(path: &str) -> (result: u64)
    ensures
        result == depot_hash(path@),
        text::all_ascii(path@) ==> result == path_hash(utf8::encode_utf8(normalized_ascii(path@))),
{
    let chars: Vec<char> = chars_of(path);
    let mut from: usize = 0;
    assert(chars@.subrange(0, chars@.len() as int) =~= chars@);
    while from < chars.len() && is_trimmed_char(chars[from])
        invariant
            from <= chars@.len(),
            trimmed_start(chars@) == trimmed_start(
                chars@.subrange(from as int, chars@.len() as int),
            ),
        decreases chars@.len() - from,
    {
        proof {
            let rest = chars@.subrange(from as int, chars@.len() as int);
            assert(rest.drop_first() =~= chars@.subrange(from + 1, chars@.len() as int));
        }
        from = from + 1;
    }
    let ghost started = chars@.subrange(from as int, chars@.len() as int);
    assert(trimmed_start(chars@) == started);
    let mut to: usize = chars.len();
    while to > from && is_trimmed_char(chars[to - 1])
        invariant
            from <= to <= chars@.len(),
            trimmed_end(started) == trimmed_end(chars@.subrange(from as int, to as int)),
        decreases to - from,
    {
        proof {
            let rest = chars@.subrange(from as int, to as int);
            assert(rest.drop_last() =~= chars@.subrange(from as int, to - 1));
        }
        to = to - 1;
    }
    let kept: Vec<char> = text::part_of(&chars, from, to);
    assert(trimmed_end(started) == kept@);
    let slashed: String = text_of(&replace_char(&kept, '/', '\\'));
    proof {
        if text::all_ascii(path@) {
            assert forall|i: int| 0 <= i < slashed@.len() implies (#[trigger] slashed@[i] as u32)
                < 128 by {
                assert(kept@[i] == path@[from + i]);
                assert((path@[from + i] as u32) < 128);
            }
        }
    }
    let normalized: String = to_lowercase(slashed.as_str());
    let bytes: &[u8] = normalized.as_str().as_bytes();
    hash_path(bytes)
}

fn hash_path(bytes: &[u8]) -> (result: u64)
    ensures
        result == path_hash(bytes@),
{
    let mut hash: u64 = FNV_OFFSET;
    let mut i: usize = 0;
    assert(bytes@.subrange(0, 0) =~= Seq::<u8>::empty());
    while i < bytes.len()
        invariant
            i <= bytes@.len(),
            hash == path_hash(bytes@.subrange(0, i as int)),
        decreases bytes@.len() - i,
    {
        let ghost so_far = bytes@.subrange(0, i + 1);
        assert(so_far.drop_last() =~= bytes@.subrange(0, i as int));
        if !(bytes[i] == 92 && i > 0 && bytes[i - 1] == 92) {
            hash = (hash ^ (bytes[i] as u64)).wrapping_mul(FNV_PRIME);
        }
        i = i + 1;
    }
    assert(bytes@.subrange(0, bytes@.len() as int) =~= bytes@);
    hash
}

// ---------------------------------------------------------------------------
// Reading the index
// ---------------------------------------------------------------------------

/// The number at `at`, or zero past the end.
pub open spec fn field(bytes: Seq<u8>, at: nat, count: nat) -> nat {
    match binary::number_at(bytes, at, count) {
        Some(value) => value,
        None => 0,
    }
}

/// The header's fields after the magic.
pub open spec fn header_of(bytes: Seq<u8>) -> ArchiveHeader {
    ArchiveHeader {
        version: field(bytes, 4, 4) as u32,
        index_position: field(bytes, 8, 8) as u64,
        index_size: field(bytes, 16, 4) as u32,
        debug_position: field(bytes, 20, 8) as u64,
        debug_size: field(bytes, 28, 4) as u32,
        file_size: field(bytes, 32, 8) as u64,
    }
}

/// How many bytes the index tables take.
pub open spec fn tables_size(entries: nat, segments: nat, dependencies: nat) -> nat {
    28 + entries * 56 + segments * 16 + dependencies * 8
}

/// The entry that stands at `at`.
pub open spec fn raw_entry_at(bytes: Seq<u8>, at: nat) -> RawModel {
    RawModel {
        name_hash: field(bytes, at, 8) as u64,
        timestamp_filetime: binary::signed64(field(bytes, at + 8, 8)) as i64,
        inline_buffer_segments: field(bytes, at + 16, 4) as u32,
        segments_start: field(bytes, at + 20, 4) as u32,
        segments_end: field(bytes, at + 24, 4) as u32,
        dependencies_start: field(bytes, at + 28, 4) as u32,
        dependencies_end: field(bytes, at + 32, 4) as u32,
        sha1: bytes.subrange(at as int + 36, at as int + 56),
    }
}

/// The segment that stands at `at`.
pub open spec fn segment_at(bytes: Seq<u8>, at: nat) -> ArchiveSegment {
    ArchiveSegment {
        offset: field(bytes, at, 8) as u64,
        compressed_size: field(bytes, at + 8, 4) as u32,
        size: field(bytes, at + 12, 4) as u32,
    }
}

/// `count` entries from `at` on.
pub open spec fn raw_entries(bytes: Seq<u8>, at: nat, count: nat) -> Seq<RawModel> {
    Seq::new(count, |i: int| raw_entry_at(bytes, (at + 56 * i) as nat))
}

/// `count` segments from `at` on.
pub open spec fn segments_from(bytes: Seq<u8>, at: nat, count: nat) -> Seq<ArchiveSegment> {
    Seq::new(count, |i: int| segment_at(bytes, (at + 16 * i) as nat))
}

/// The compressed sizes of segments together.
pub open spec fn compressed_total(segments: Seq<ArchiveSegment>) -> nat
    decreases segments.len(),
{
    if segments.len() == 0 {
        0
    } else {
        compressed_total(segments.drop_last()) + segments.last().compressed_size as nat
    }
}

/// The sizes of segments together.
pub open spec fn size_total(segments: Seq<ArchiveSegment>) -> nat
    decreases segments.len(),
{
    if segments.len() == 0 {
        0
    } else {
        size_total(segments.drop_last()) + segments.last().size as nat
    }
}

/// A digit of a hexadecimal number.
pub open spec fn hex_digit(value: nat) -> char {
    if value < 10 {
        (48 + value) as char
    } else {
        (87 + value) as char
    }
}

/// Bytes as hexadecimal digits.
pub open spec fn hex_text(bytes: Seq<u8>) -> Seq<char>
    decreases bytes.len(),
{
    if bytes.len() == 0 {
        seq![]
    } else {
        hex_text(bytes.drop_last()) + seq![
            hex_digit((bytes.last() / 16) as nat),
            hex_digit((bytes.last() % 16) as nat),
        ]
    }
}

/// An entry's segments are there.
pub open spec fn range_ok(raw: RawModel, segments: Seq<ArchiveSegment>) -> bool {
    raw.segments_start <= raw.segments_end <= segments.len()
}

/// An entry with the sizes of its segments.
pub open spec fn sized_entry(raw: RawModel, segments: Seq<ArchiveSegment>) -> EntryModel {
    let selected = segments.subrange(raw.segments_start as int, raw.segments_end as int);
    EntryModel {
        name_hash: raw.name_hash,
        timestamp_filetime: raw.timestamp_filetime,
        inline_buffer_segments: raw.inline_buffer_segments,
        segments_start: raw.segments_start,
        segments_end: raw.segments_end,
        dependencies_start: raw.dependencies_start,
        dependencies_end: raw.dependencies_end,
        sha1: hex_text(raw.sha1),
        compressed_size: compressed_total(selected),
        size: size_total(selected),
    }
}

/// The first entry from `i` on whose segments are not there.
pub open spec fn bad_entry(raws: Seq<RawModel>, segments: Seq<ArchiveSegment>, i: nat) -> Option<nat>
    decreases raws.len() - i,
{
    if i >= raws.len() {
        None
    } else if range_ok(raws[i as int], segments) {
        bad_entry(raws, segments, i + 1)
    } else {
        Some(i)
    }
}

/// All entries with the sizes of their segments.
pub open spec fn sized_entries(raws: Seq<RawModel>, segments: Seq<ArchiveSegment>) -> Seq<
    EntryModel,
> {
    Seq::new(raws.len(), |i: int| sized_entry(raws[i], segments))
}

/// Where the next zero byte at or after `at` stands.
pub open spec fn next_zero(bytes: Seq<u8>, at: nat) -> Option<nat>
    decreases bytes.len() - at,
{
    if at >= bytes.len() {
        None
    } else if bytes[at as int] == 0 {
        Some(at)
    } else {
        next_zero(bytes, at + 1)
    }
}

pub proof fn lemma_next_zero(bytes: Seq<u8>, at: nat)
    ensures
        next_zero(bytes, at) matches Some(end) ==> at <= end < bytes.len() && bytes[end as int]
            == 0,
    decreases bytes.len() - at,
{
    if at < bytes.len() && bytes[at as int] != 0 {
        lemma_next_zero(bytes, at + 1);
    }
}

/// `count` zero-terminated texts from `at` on, after those of `found`.
pub open spec fn path_list(bytes: Seq<u8>, at: nat, count: nat, found: Seq<Seq<char>>) -> Option<
    Seq<Seq<char>>,
>
    decreases count,
{
    if count == 0 {
        Some(found)
    } else {
        match next_zero(bytes, at) {
            None => None,
            Some(end) => path_list(
                bytes,
                end + 1,
                (count - 1) as nat,
                found.push(text::readable_text(bytes.subrange(at as int, end as int))),
            ),
        }
    }
}

/// The custom paths of an archive. A compressed table is passed over.
pub open spec fn custom_paths_of(bytes: Seq<u8>, length: nat) -> Result<
    Seq<Seq<char>>,
    ArchiveError,
> {
    let at = EXTENDED_HEADER_SIZE as nat;
    if length == 0 {
        Ok(seq![])
    } else if at + 4 > bytes.len() {
        Err(ArchiveError::Truncated)
    } else if field(bytes, at, 4) != LXRS_MAGIC {
        Err(ArchiveError::InvalidIndex)
    } else if at + 8 > bytes.len() {
        Err(ArchiveError::Truncated)
    } else if field(bytes, at + 4, 4) != 1 {
        Err(ArchiveError::InvalidIndex)
    } else if at + 20 > bytes.len() {
        Err(ArchiveError::Truncated)
    } else {
        let size = field(bytes, at + 8, 4);
        if size != field(bytes, at + 12, 4) {
            Ok(seq![])
        } else if at + 20 + size > bytes.len() {
            Err(ArchiveError::Truncated)
        } else {
            match path_list(
                bytes.subrange(at as int + 20, (at + 20 + size) as int),
                0,
                field(bytes, at + 16, 4),
                seq![],
            ) {
                None => Err(ArchiveError::InvalidIndex),
                Some(paths) => Ok(paths),
            }
        }
    }
}

/// The index of an archive.
pub open spec fn archive(bytes: Seq<u8>) -> Result<ArchiveModel, ArchiveError> {
    if bytes.len() < 4 {
        Err(ArchiveError::Truncated)
    } else if field(bytes, 0, 4) != ARCHIVE_MAGIC {
        Err(ArchiveError::InvalidMagic { actual: field(bytes, 0, 4) as u32 })
    } else if bytes.len() < 44 {
        Err(ArchiveError::Truncated)
    } else {
        let header = header_of(bytes);
        let at = header.index_position as nat;
        if at < 40 || at + header.index_size > bytes.len() {
            Err(ArchiveError::InvalidIndex)
        } else if at + 28 > bytes.len() {
            Err(ArchiveError::Truncated)
        } else {
            indexed_archive(bytes, header, at)
        }
    }
}

/// The index at `at`.
pub open spec fn indexed_archive(bytes: Seq<u8>, header: ArchiveHeader, at: nat) -> Result<
    ArchiveModel,
    ArchiveError,
> {
    let entries = field(bytes, at + 16, 4);
    let segment_count = field(bytes, at + 20, 4);
    let dependencies = field(bytes, at + 24, 4);
    if tables_size(entries, segment_count, dependencies) > header.index_size {
        Err(ArchiveError::InvalidIndex)
    } else {
        let raws = raw_entries(bytes, at + 28, entries);
        let segments = segments_from(bytes, at + 28 + 56 * entries, segment_count);
        match bad_entry(raws, segments, 0) {
            Some(i) => Err(
                ArchiveError::InvalidSegmentRange {
                    entry: i as usize,
                    start: raws[i as int].segments_start,
                    end: raws[i as int].segments_end,
                },
            ),
            None => match custom_paths_of(bytes, field(bytes, 40, 4)) {
                Err(error) => Err(error),
                Ok(custom_paths) => Ok(
                    ArchiveModel {
                        header,
                        file_table_offset: field(bytes, at, 4) as u32,
                        file_table_size: field(bytes, at + 4, 4) as u32,
                        crc: field(bytes, at + 8, 8) as u64,
                        entries: sized_entries(raws, segments),
                        segments,
                        segment_count: segment_count as u32,
                        dependency_count: dependencies as u32,
                        custom_paths,
                    },
                ),
            },
        }
    }
}

fn get_u32(bytes: &[u8], at: usize) -> (result: u32)
    requires
        at + 4 <= bytes@.len(),
    ensures
        result == field(bytes@, at as nat, 4),
{
    match read_u32_le(bytes, at) {
        Some(value) => value,
        None => 0,
    }
}

fn get_u64(bytes: &[u8], at: usize) -> (result: u64)
    requires
        at + 8 <= bytes@.len(),
    ensures
        result == field(bytes@, at as nat, 8),
{
    match read_u64_le(bytes, at) {
        Some(value) => value,
        None => 0,
    }
}

fn get_i64(bytes: &[u8], at: usize) -> (result: i64)
    requires
        at + 8 <= bytes@.len(),
    ensures
        result == binary::signed64(field(bytes@, at as nat, 8)),
{
    match read_i64_le(bytes, at) {
        Some(value) => value,
        None => 0,
    }
}

fn encode_hex(bytes: &[u8]) -> (result: String)
    ensures
        result@ == hex_text(bytes@),
{
    let mut output: String = String::new();
    let mut i: usize = 0;
    assert(bytes@.subrange(0, 0) =~= Seq::<u8>::empty());
    while i < bytes.len()
        invariant
            i <= bytes@.len(),
            output@ == hex_text(bytes@.subrange(0, i as int)),
        decreases bytes@.len() - i,
    {
        assert(bytes@.subrange(0, i + 1).drop_last() =~= bytes@.subrange(0, i as int));
        let before: Ghost<Seq<char>> = Ghost(output@);
        push_char(&mut output, digit_of(bytes[i] / 16));
        push_char(&mut output, digit_of(bytes[i] % 16));
        i = i + 1;
        assert(output@ =~= before@ + seq![
            hex_digit((bytes@[i - 1] / 16) as nat),
            hex_digit((bytes@[i - 1] % 16) as nat),
        ]);
    }
    assert(bytes@.subrange(0, bytes@.len() as int) =~= bytes@);
    output
}

fn digit_of(value: u8) -> (result: char)
    requires
        value < 16,
    ensures
        result == hex_digit(value as nat),
{
    if value < 10 {
        (48 + value) as char
    } else {
        (87 + value) as char
    }
}

fn read_raw_entry(bytes: &[u8], at: usize) -> (result: RawEntry)
    requires
        at + 56 <= bytes@.len(),
    ensures
        result@ == raw_entry_at(bytes@, at as nat),
{
    let _size: usize = bytes.len();
    let sha1: Vec<u8> = sequence::to_vec(part(bytes, at + 36, at + 56));
    RawEntry {
        name_hash: get_u64(bytes, at),
        timestamp_filetime: get_i64(bytes, at + 8),
        inline_buffer_segments: get_u32(bytes, at + 16),
        segments_start: get_u32(bytes, at + 20),
        segments_end: get_u32(bytes, at + 24),
        dependencies_start: get_u32(bytes, at + 28),
        dependencies_end: get_u32(bytes, at + 32),
        sha1,
    }
}

/// The models of entries.
pub open spec fn raw_models(raws: Seq<RawEntry>) -> Seq<RawModel> {
    raws.map_values(|raw: RawEntry| raw@)
}

fn read_raw_entries(bytes: &[u8], at: usize, count: usize) -> (result: Vec<RawEntry>)
    requires
        at + 56 * count <= bytes@.len(),
    ensures
        raw_models(result@) == raw_entries(bytes@, at as nat, count as nat),
{
    let size: usize = bytes.len();
    let mut raws: Vec<RawEntry> = Vec::new();
    let mut i: usize = 0;
    while i < count
        invariant
            i <= count,
            size == bytes@.len(),
            at + 56 * count <= size,
            raws@.len() == i,
            forall|k: int|
                0 <= k < i ==> (#[trigger] raws@[k])@ == raw_entry_at(
                    bytes@,
                    (at + 56 * k) as nat,
                ),
        decreases count - i,
    {
        raws.push(read_raw_entry(bytes, at + 56 * i));
        i = i + 1;
    }
    assert(raw_models(raws@) =~= raw_entries(bytes@, at as nat, count as nat));
    raws
}

fn read_segments(bytes: &[u8], at: usize, count: usize) -> (result: Vec<ArchiveSegment>)
    requires
        at + 16 * count <= bytes@.len(),
    ensures
        result@ == segments_from(bytes@, at as nat, count as nat),
{
    let size: usize = bytes.len();
    let mut segments: Vec<ArchiveSegment> = Vec::new();
    let mut i: usize = 0;
    while i < count
        invariant
            i <= count,
            size == bytes@.len(),
            at + 16 * count <= size,
            segments@ =~= segments_from(bytes@, at as nat, i as nat),
        decreases count - i,
    {
        let from: usize = at + 16 * i;
        segments.push(
            ArchiveSegment {
                offset: get_u64(bytes, from),
                compressed_size: get_u32(bytes, from + 8),
                size: get_u32(bytes, from + 12),
            },
        );
        i = i + 1;
    }
    segments
}

/// Sums up the sizes of some segments.
fn sum_segments(segments: &[ArchiveSegment], from: usize, to: usize) -> (result: (u64, u64))
    requires
        from <= to <= segments@.len(),
        to <= 0xffff_ffff,
    ensures
        result.0 == compressed_total(segments@.subrange(from as int, to as int)),
        result.1 == size_total(segments@.subrange(from as int, to as int)),
{
    let mut compressed: u64 = 0;
    let mut size: u64 = 0;
    let mut i: usize = from;
    while i < to
        invariant
            from <= i <= to <= segments@.len(),
            to <= 0xffff_ffff,
            compressed == compressed_total(segments@.subrange(from as int, i as int)),
            size == size_total(segments@.subrange(from as int, i as int)),
            compressed <= (i - from) * 0xffff_ffff,
            size <= (i - from) * 0xffff_ffff,
        decreases to - i,
    {
        proof {
            assert(segments@.subrange(from as int, i + 1).drop_last() =~= segments@.subrange(
                from as int,
                i as int,
            ));
        }
        compressed = compressed + segments[i].compressed_size as u64;
        size = size + segments[i].size as u64;
        i = i + 1;
    }
    (compressed, size)
}

/// Adds the sizes of their segments to entries.
fn size_entries(raws: Vec<RawEntry>, segments: &[ArchiveSegment]) -> (result: Result<
    Vec<ArchiveEntry>,
    ArchiveError,
>)
    requires
        segments@.len() <= 0xffff_ffff,
    ensures
        match bad_entry(raw_models(raws@), segments@, 0) {
            Some(i) => result matches Err(error) && error == (ArchiveError::InvalidSegmentRange {
                entry: i as usize,
                start: raw_models(raws@)[i as int].segments_start,
                end: raw_models(raws@)[i as int].segments_end,
            }),
            None => result matches Ok(entries) && entries@.map_values(|entry: ArchiveEntry| entry@)
                == sized_entries(raw_models(raws@), segments@),
        },
{
    let ghost models = raw_models(raws@);
    let mut entries: Vec<ArchiveEntry> = Vec::new();
    let mut i: usize = 0;
    while i < raws.len()
        invariant
            i <= raws@.len(),
            segments@.len() <= 0xffff_ffff,
            models == raw_models(raws@),
            bad_entry(models, segments@, 0) == bad_entry(models, segments@, i as nat),
            entries@.len() == i,
            forall|k: int|
                0 <= k < i ==> (#[trigger] entries@[k])@ == sized_entry(models[k], segments@),
        decreases raws@.len() - i,
    {
        let raw: &RawEntry = &raws[i];
        assert(models[i as int] == raw@);
        let start: usize = raw.segments_start as usize;
        let end: usize = raw.segments_end as usize;
        if start > end || end > segments.len() {
            return Err(
                ArchiveError::InvalidSegmentRange {
                    entry: i,
                    start: raw.segments_start,
                    end: raw.segments_end,
                },
            );
        }
        let (compressed_size, size): (u64, u64) = sum_segments(segments, start, end);
        entries.push(
            ArchiveEntry {
                name_hash: raw.name_hash,
                timestamp_filetime: raw.timestamp_filetime,
                inline_buffer_segments: raw.inline_buffer_segments,
                segments_start: raw.segments_start,
                segments_end: raw.segments_end,
                dependencies_start: raw.dependencies_start,
                dependencies_end: raw.dependencies_end,
                sha1: encode_hex(&raw.sha1),
                compressed_size,
                size,
            },
        );
        i = i + 1;
    }
    assert(entries@.map_values(|entry: ArchiveEntry| entry@) =~= sized_entries(models, segments@));
    Ok(entries)
}

fn find_zero(bytes: &[u8], from: usize) -> (result: Option<usize>)
    ensures
        match next_zero(bytes@, from as nat) {
            None => result is None,
            Some(end) => result matches Some(r) && r == end && from <= end < bytes@.len(),
        },
{
    let mut i: usize = from;
    while i < bytes.len()
        invariant
            from <= i,
            next_zero(bytes@, from as nat) == next_zero(bytes@, i as nat),
        decreases bytes@.len() - i,
    {
        if bytes[i] == 0 {
            return Some(i);
        }
        i = i + 1;
    }
    None
}

/// Decodes a table of zero-terminated paths.
pub fn decode_custom_paths(bytes: &[u8], count: u32) -> (result: Result<Vec<String>, ArchiveError>)
    ensures
        match path_list(bytes@, 0, count as nat, seq![]) {
            None => result matches Err(error) && error == ArchiveError::InvalidIndex,
            Some(paths) => result matches Ok(r) && texts(r@) == paths,
        },
{
    let mut result: Vec<String> = Vec::new();
    let mut start: usize = 0;
    let mut left: u32 = count;
    let size: usize = bytes.len();
    assert(texts(result@) =~= Seq::<Seq<char>>::empty());
    while left > 0
        invariant
            start <= bytes@.len() == size,
            path_list(bytes@, 0, count as nat, seq![]) == path_list(
                bytes@,
                start as nat,
                left as nat,
                texts(result@),
            ),
        decreases left,
    {
        let end: usize = match find_zero(bytes, start) {
            Some(end) => end,
            None => return Err(ArchiveError::InvalidIndex),
        };
        let path: String = from_utf8_lossy(part(bytes, start, end));
        proof {
            assert(texts(result@.push(path)) =~= texts(result@).push(path@));
        }
        result.push(path);
        start = end + 1;
        left = left - 1;
    }
    Ok(result)
}

/// Reads the custom paths of an archive.
fn read_custom_paths(bytes: &[u8], length: u32) -> (result: Result<Vec<String>, ArchiveError>)
    ensures
        match custom_paths_of(bytes@, length as nat) {
            Err(error) => result matches Err(e) && e == error,
            Ok(paths) => result matches Ok(r) && texts(r@) == paths,
        },
{
    let at: usize = EXTENDED_HEADER_SIZE;
    if length == 0 {
        let none: Vec<String> = Vec::new();
        assert(texts(none@) =~= Seq::<Seq<char>>::empty());
        return Ok(none);
    }
    if bytes.len() < at + 4 {
        return Err(ArchiveError::Truncated);
    }
    if get_u32(bytes, at) != LXRS_MAGIC {
        return Err(ArchiveError::InvalidIndex);
    }
    if bytes.len() < at + 8 {
        return Err(ArchiveError::Truncated);
    }
    if get_u32(bytes, at + 4) != 1 {
        return Err(ArchiveError::InvalidIndex);
    }
    if bytes.len() < at + 20 {
        return Err(ArchiveError::Truncated);
    }
    let size: u32 = get_u32(bytes, at + 8);
    if size != get_u32(bytes, at + 12) {
        let none: Vec<String> = Vec::new();
        assert(texts(none@) =~= Seq::<Seq<char>>::empty());
        return Ok(none);
    }
    if bytes.len() - (at + 20) < size as usize {
        return Err(ArchiveError::Truncated);
    }
    decode_custom_paths(
        part(bytes, at + 20, at + 20 + size as usize),
        get_u32(bytes, at + 16),
    )
}

/// The stored table of custom paths: how long it is when decompressed, how many
/// paths it holds, and its bytes.
pub open spec fn stored_table(bytes: Seq<u8>) -> Result<(nat, nat, Seq<u8>), ArchiveError> {
    let at = EXTENDED_HEADER_SIZE as nat;
    if bytes.len() < at + 4 {
        Err(ArchiveError::Truncated)
    } else if field(bytes, at, 4) != LXRS_MAGIC {
        Err(ArchiveError::InvalidIndex)
    } else if bytes.len() < at + 8 {
        Err(ArchiveError::Truncated)
    } else if field(bytes, at + 4, 4) != 1 {
        Err(ArchiveError::InvalidIndex)
    } else if bytes.len() < at + 20 || bytes.len() < at + 20 + field(bytes, at + 12, 4) {
        Err(ArchiveError::Truncated)
    } else {
        Ok(
            (
                field(bytes, at + 8, 4),
                field(bytes, at + 16, 4),
                bytes.subrange(
                    (at + 20) as int,
                    (at + 20 + field(bytes, at + 12, 4)) as int,
                ),
            ),
        )
    }
}

/// Finds the stored table of custom paths: how long it is when decompressed,
/// how many paths it holds, and its bytes.
pub fn read_stored_table(bytes: &[u8]) -> (result: Result<(u32, u32, &[u8]), ArchiveError>)
    ensures
        match stored_table(bytes@) {
            Err(error) => result matches Err(e) && e == error,
            Ok((size, count, table)) => result matches Ok(r) && r.0 == size && r.1 == count
                && r.2@ == table,
        },
{
    let at: usize = EXTENDED_HEADER_SIZE;
    if bytes.len() < at + 4 {
        return Err(ArchiveError::Truncated);
    }
    if get_u32(bytes, at) != LXRS_MAGIC {
        return Err(ArchiveError::InvalidIndex);
    }
    if bytes.len() < at + 8 {
        return Err(ArchiveError::Truncated);
    }
    if get_u32(bytes, at + 4) != 1 {
        return Err(ArchiveError::InvalidIndex);
    }
    if bytes.len() < at + 20 {
        return Err(ArchiveError::Truncated);
    }
    let stored: u32 = get_u32(bytes, at + 12);
    if bytes.len() - (at + 20) < stored as usize {
        return Err(ArchiveError::Truncated);
    }
    Ok(
        (
            get_u32(bytes, at + 8),
            get_u32(bytes, at + 16),
            part(bytes, at + 20, at + 20 + stored as usize),
        ),
    )
}

/// Tells whether tables of these sizes fit in an index.
fn validate_table_size(entries: u32, segments: u32, dependencies: u32, index_size: u32) -> (result:
    bool)
    ensures
        result == (tables_size(entries as nat, segments as nat, dependencies as nat) <= index_size),
{
    28 + entries as u64 * 56 + segments as u64 * 16 + dependencies as u64 * 8 <= index_size as u64
}

/// Reads and validates the header and index tables of an archive.
pub fn read_archive(bytes: &[u8]) -> (result: Result<ArchiveIndex, ArchiveError>)
    ensures
        match archive(bytes@) {
            Err(error) => result matches Err(e) && e == error,
            Ok(model) => result matches Ok(index) && index@ == model,
        },
{
    if bytes.len() < 4 {
        return Err(ArchiveError::Truncated);
    }
    let magic: u32 = get_u32(bytes, 0);
    if magic != ARCHIVE_MAGIC {
        return Err(ArchiveError::InvalidMagic { actual: magic });
    }
    if bytes.len() < 44 {
        return Err(ArchiveError::Truncated);
    }
    let header: ArchiveHeader = ArchiveHeader {
        version: get_u32(bytes, 4),
        index_position: get_u64(bytes, 8),
        index_size: get_u32(bytes, 16),
        debug_position: get_u64(bytes, 20),
        debug_size: get_u32(bytes, 28),
        file_size: get_u64(bytes, 32),
    };
    let actual_len: u64 = bytes.len() as u64;
    if header.index_position < 40 || header.index_position > actual_len || header.index_size as u64
        > actual_len - header.index_position {
        return Err(ArchiveError::InvalidIndex);
    }
    let at: usize = header.index_position as usize;
    if bytes.len() - at < 28 {
        return Err(ArchiveError::Truncated);
    }
    let entry_count: u32 = get_u32(bytes, at + 16);
    let segment_count: u32 = get_u32(bytes, at + 20);
    let dependency_count: u32 = get_u32(bytes, at + 24);
    if !validate_table_size(entry_count, segment_count, dependency_count, header.index_size) {
        return Err(ArchiveError::InvalidIndex);
    }
    let raws: Vec<RawEntry> = read_raw_entries(bytes, at + 28, entry_count as usize);
    let segments: Vec<ArchiveSegment> = read_segments(
        bytes,
        at + 28 + 56 * entry_count as usize,
        segment_count as usize,
    );
    let entries: Vec<ArchiveEntry> = match size_entries(raws, &segments) {
        Ok(entries) => entries,
        Err(error) => return Err(error),
    };
    let custom_paths: Vec<String> = match read_custom_paths(bytes, get_u32(bytes, 40)) {
        Ok(paths) => paths,
        Err(error) => return Err(error),
    };
    Ok(
        ArchiveIndex {
            header,
            file_table_offset: get_u32(bytes, at),
            file_table_size: get_u32(bytes, at + 4),
            crc: get_u64(bytes, at + 8),
            entries,
            segments,
            segment_count,
            dependency_count,
            custom_paths,
        },
    )
}

// ---------------------------------------------------------------------------
// Extraction
// ---------------------------------------------------------------------------

/// The last of the first `n` paths with this hash.
pub open spec fn path_with(paths: Seq<Seq<char>>, hash: u64, n: nat) -> Option<nat>
    decreases n,
{
    if n == 0 {
        None
    } else if depot_hash(paths[n - 1]) == hash {
        Some((n - 1) as nat)
    } else {
        path_with(paths, hash, (n - 1) as nat)
    }
}

/// Finds the path of an entry: the last one with its hash.
pub fn resolve_path(paths: &[String], hash: u64) -> (result: Result<usize, ArchiveError>)
    ensures
        match path_with(texts(paths@), hash, paths@.len()) {
            Some(index) => result matches Ok(r) && r == index && index < paths@.len(),
            None => result matches Err(error) && error == (ArchiveError::UnresolvedPath { hash }),
        },
{
    let mut n: usize = paths.len();
    while n > 0
        invariant
            n <= paths@.len(),
            path_with(texts(paths@), hash, paths@.len()) == path_with(
                texts(paths@),
                hash,
                n as nat,
            ),
        decreases n,
    {
        assert(texts(paths@)[n - 1] == paths@[n - 1]@);
        if depot_path_hash(paths[n - 1].as_str()) == hash {
            return Ok(n - 1);
        }
        n = n - 1;
    }
    Err(ArchiveError::UnresolvedPath { hash })
}

/// The part of a path before the next slash at or after `at`.
pub open spec fn component_end(path: Seq<char>, at: nat) -> nat
    decreases path.len() - at,
{
    if at >= path.len() || path[at as int] == '/' {
        at
    } else {
        component_end(path, at + 1)
    }
}

/// The components of a path from `at` on stay below its root: none of them
/// names a parent, and the first is not the directory itself.
pub open spec fn components_ok(path: Seq<char>, at: nat) -> bool
    decreases path.len() - at,
{
    if at >= path.len() {
        true
    } else {
        let end = component_end(path, at);
        let component = path.subrange(at as int, end as int);
        if component == seq!['.', '.'] || (at == 0 && component == seq!['.']) {
            false
        } else if end < at || end >= path.len() {
            true
        } else {
            components_ok(path, end + 1)
        }
    }
}

/// A depot path that stays below the archive root.
pub open spec fn is_safe(path: Seq<char>) -> bool {
    let slashed = text::replaced(path, '\\', '/');
    !(slashed.len() > 0 && slashed[0] == '/') && components_ok(slashed, 0)
}

proof fn lemma_component_end(path: Seq<char>, at: nat)
    ensures
        at <= component_end(path, at),
        at <= path.len() ==> component_end(path, at) <= path.len(),
    decreases path.len() - at,
{
    if at < path.len() && path[at as int] != '/' {
        lemma_component_end(path, at + 1);
    }
}

/// Turns a depot path into a relative path, if it stays below the archive root.
pub fn safe_depot_path(path: &str) -> (result: Result<String, ArchiveError>)
    ensures
        if is_safe(path@) {
            result matches Ok(r) && r@ == text::replaced(path@, '\\', '/')
        } else {
            result matches Err(error) && error == ArchiveError::InvalidDepotPath
        },
{
    let slashed: Vec<char> = replace_char(&chars_of(path), '\\', '/');
    if slashed.len() > 0 && slashed[0] == '/' {
        return Err(ArchiveError::InvalidDepotPath);
    }
    let mut at: usize = 0;
    let size: usize = slashed.len();
    while at < size
        invariant
            slashed@ == text::replaced(path@, '\\', '/'),
            size == slashed@.len(),
            !(slashed@.len() > 0 && slashed@[0] == '/'),
            components_ok(slashed@, 0) == components_ok(slashed@, at as nat),
        decreases size - at,
    {
        let mut end: usize = at;
        while end < size && slashed[end] != '/'
            invariant
                at <= end <= size == slashed@.len(),
                component_end(slashed@, at as nat) == component_end(slashed@, end as nat),
            decreases size - end,
        {
            end = end + 1;
        }
        proof {
            lemma_component_end(slashed@, at as nat);
        }
        let component: Vec<char> = text::part_of(&slashed, at, end);
        let parent: bool = component.len() == 2 && component[0] == '.' && component[1] == '.';
        let here: bool = at == 0 && component.len() == 1 && component[0] == '.';
        proof {
            if parent {
                assert(component@ =~= seq!['.', '.']);
            }
            if here {
                assert(component@ =~= seq!['.']);
            }
        }
        if parent || here {
            return Err(ArchiveError::InvalidDepotPath);
        }
        at = if end < size {
            end + 1
        } else {
            end
        };
    }
    Ok(text_of(&slashed))
}

} // verus!
