//! Packing loose files into a `.archive` container.

use crate::archive;
use crate::archive::{raw_models, ArchiveError, ArchiveSegment, RawEntry, RawModel};
use crate::archive::LXRS_MAGIC;
use crate::binary;
use crate::binary::{write_i64, write_u32, write_u64};
use crate::sequence;
use crate::sequence::append;
use crate::text;
use crate::text::{ascii_lower_chars, has_suffix};
use vstd::prelude::*;
use vstd::utf8;

verus! {

// ---------------------------------------------------------------------------
// Checksums
// ---------------------------------------------------------------------------

/// The SHA-1 digest of bytes.
pub uninterp spec fn sha1_digest(bytes: Seq<u8>) -> Seq<u8>;

/// Calls `sha1::Sha1::digest`. The digest depends on the bytes alone, has
/// twenty bytes, and is named [`sha1_digest`].
#[verifier::external_body]
pub(crate) fn digest_sha1(bytes: &[u8]) -> (result: Vec<u8>)
    ensures
        result@ == sha1_digest(bytes@),
        result@.len() == 20,
{
    <sha1::Sha1 as sha1::Digest>::digest(bytes).to_vec()
}

/// The reflected polynomial of the 64-bit checksum.
pub const CRC_POLYNOMIAL: u64 = 0xc96c_5795_d787_0f42;

/// Divides by the polynomial, bit by bit.
pub open spec fn crc_shift(value: u64, n: nat) -> u64
    decreases n,
{
    if n == 0 {
        value
    } else {
        let before = crc_shift(value, (n - 1) as nat);
        if before & 1 == 1 {
            (before >> 1) ^ CRC_POLYNOMIAL
        } else {
            before >> 1
        }
    }
}

/// Adds a byte to the checksum.
pub open spec fn crc_step(crc: u64, byte: u8) -> u64 {
    (crc >> 8) ^ crc_shift((crc & 0xff) ^ (byte as u64), 8)
}

/// The checksum of bytes before its last complement.
pub open spec fn crc_of(bytes: Seq<u8>) -> u64
    decreases bytes.len(),
{
    if bytes.len() == 0 {
        0xffff_ffff_ffff_ffff
    } else {
        crc_step(crc_of(bytes.drop_last()), bytes.last())
    }
}

/// The 64-bit checksum of bytes.
pub open spec fn crc64_of(bytes: Seq<u8>) -> u64 {
    !crc_of(bytes)
}

fn shift_crc(value: u64) -> (result: u64)
    ensures
        result == crc_shift(value, 8),
{
    let mut shifted: u64 = value;
    let mut n: usize = 0;
    while n < 8
        invariant
            n <= 8,
            shifted == crc_shift(value, n as nat),
        decreases 8 - n,
    {
        shifted = if shifted & 1 == 1 {
            (shifted >> 1) ^ CRC_POLYNOMIAL
        } else {
            shifted >> 1
        };
        n = n + 1;
    }
    shifted
}

/// Calculates the 64-bit checksum of bytes.
pub fn crc64(bytes: &[u8]) -> (result: u64)
    ensures
        result == crc64_of(bytes@),
{
    let mut crc: u64 = 0xffff_ffff_ffff_ffff;
    let mut i: usize = 0;
    assert(bytes@.subrange(0, 0) =~= Seq::<u8>::empty());
    while i < bytes.len()
        invariant
            i <= bytes@.len(),
            crc == crc_of(bytes@.subrange(0, i as int)),
        decreases bytes@.len() - i,
    {
        assert(bytes@.subrange(0, i + 1).drop_last() =~= bytes@.subrange(0, i as int));
        crc = (crc >> 8) ^ shift_crc((crc & 0xff) ^ (bytes[i] as u64));
        i = i + 1;
    }
    assert(bytes@.subrange(0, bytes@.len() as int) =~= bytes@);
    !crc
}

// ---------------------------------------------------------------------------
// Tables
// ---------------------------------------------------------------------------

/// An entry of the file table.
pub open spec fn entry_bytes(entry: RawModel) -> Seq<u8> {
    binary::le_bytes(entry.name_hash as nat, 8) + binary::le_bytes(
        binary::unsigned64(entry.timestamp_filetime as int),
        8,
    ) + binary::le_bytes(entry.inline_buffer_segments as nat, 4) + binary::le_bytes(
        entry.segments_start as nat,
        4,
    ) + binary::le_bytes(entry.segments_end as nat, 4) + binary::le_bytes(
        entry.dependencies_start as nat,
        4,
    ) + binary::le_bytes(entry.dependencies_end as nat, 4) + entry.sha1
}

/// A segment of the segment table.
pub open spec fn segment_bytes(segment: ArchiveSegment) -> Seq<u8> {
    binary::le_bytes(segment.offset as nat, 8) + binary::le_bytes(
        segment.compressed_size as nat,
        4,
    ) + binary::le_bytes(segment.size as nat, 4)
}

/// The file table.
pub open spec fn entry_table(entries: Seq<RawModel>) -> Seq<u8>
    decreases entries.len(),
{
    if entries.len() == 0 {
        seq![]
    } else {
        entry_table(entries.drop_last()) + entry_bytes(entries.last())
    }
}

/// The segment table.
pub open spec fn segment_table(segments: Seq<ArchiveSegment>) -> Seq<u8>
    decreases segments.len(),
{
    if segments.len() == 0 {
        seq![]
    } else {
        segment_table(segments.drop_last()) + segment_bytes(segments.last())
    }
}

/// The tables with their counts.
pub open spec fn index_body(entries: Seq<RawModel>, segments: Seq<ArchiveSegment>) -> Seq<u8> {
    binary::le_bytes(entries.len(), 4) + binary::le_bytes(segments.len(), 4) + binary::le_bytes(
        0,
        4,
    ) + entry_table(entries) + segment_table(segments)
}

/// The index: where its tables start, how long they are, their checksum and the
/// tables.
pub open spec fn index_bytes(entries: Seq<RawModel>, segments: Seq<ArchiveSegment>) -> Seq<u8> {
    let body = index_body(entries, segments);
    binary::le_bytes(8, 4) + binary::le_bytes(body.len() + 8, 4) + binary::le_bytes(
        crc64_of(body) as nat,
        8,
    ) + body
}

/// The counts of an index fit in its fields.
pub open spec fn index_fits(entries: Seq<RawModel>, segments: Seq<ArchiveSegment>) -> bool {
    &&& entries.len() <= 0xffff_ffff
    &&& segments.len() <= 0xffff_ffff
    &&& index_body(entries, segments).len() + 8 <= 0xffff_ffff
}

fn write_entry(output: &mut Vec<u8>, entry: &RawEntry)
    ensures
        final(output)@ == old(output)@ + entry_bytes(entry@),
{
    let ghost start = output@;
    write_u64(output, entry.name_hash);
    write_i64(output, entry.timestamp_filetime);
    write_u32(output, entry.inline_buffer_segments);
    write_u32(output, entry.segments_start);
    write_u32(output, entry.segments_end);
    write_u32(output, entry.dependencies_start);
    write_u32(output, entry.dependencies_end);
    append(output, &entry.sha1);
    assert(output@ =~= start + entry_bytes(entry@));
}

/// Writes the index, if its counts fit in its fields.
pub fn build_index_bytes(entries: &[RawEntry], segments: &[ArchiveSegment]) -> (result: Result<
    Vec<u8>,
    ArchiveError,
>)
    ensures
        if index_fits(raw_models(entries@), segments@) {
            result matches Ok(bytes) && bytes@ == index_bytes(raw_models(entries@), segments@)
        } else {
            result matches Err(error) && error == ArchiveError::CountOverflow
        },
{
    let ghost models = raw_models(entries@);
    if entries.len() > 0xffff_ffff || segments.len() > 0xffff_ffff {
        return Err(ArchiveError::CountOverflow);
    }
    let mut body: Vec<u8> = Vec::new();
    write_u32(&mut body, entries.len() as u32);
    write_u32(&mut body, segments.len() as u32);
    write_u32(&mut body, 0);
    let ghost start = body@;
    let mut i: usize = 0;
    assert(models.subrange(0, 0) =~= Seq::<RawModel>::empty());
    assert(start + entry_table(models.subrange(0, 0)) =~= start);
    while i < entries.len()
        invariant
            i <= entries@.len(),
            models == raw_models(entries@),
            body@ == start + entry_table(models.subrange(0, i as int)),
        decreases entries@.len() - i,
    {
        proof {
            assert(models.subrange(0, i + 1).drop_last() =~= models.subrange(0, i as int));
            assert(models[i as int] == entries@[i as int]@);
        }
        write_entry(&mut body, &entries[i]);
        i = i + 1;
        assert(body@ =~= start + entry_table(models.subrange(0, i as int)));
    }
    assert(models.subrange(0, models.len() as int) =~= models);
    let ghost listed = body@;
    i = 0;
    assert(segments@.subrange(0, 0) =~= Seq::<ArchiveSegment>::empty());
    assert(listed + segment_table(segments@.subrange(0, 0)) =~= listed);
    while i < segments.len()
        invariant
            i <= segments@.len(),
            body@ == listed + segment_table(segments@.subrange(0, i as int)),
        decreases segments@.len() - i,
    {
        proof {
            assert(segments@.subrange(0, i + 1).drop_last() =~= segments@.subrange(0, i as int));
        }
        write_u64(&mut body, segments[i].offset);
        write_u32(&mut body, segments[i].compressed_size);
        write_u32(&mut body, segments[i].size);
        i = i + 1;
        assert(body@ =~= listed + segment_table(segments@.subrange(0, i as int)));
    }
    assert(segments@.subrange(0, segments@.len() as int) =~= segments@);
    assert(body@ =~= index_body(models, segments@));
    if body.len() > 0xffff_ffff - 8 {
        return Err(ArchiveError::CountOverflow);
    }
    let mut result: Vec<u8> = Vec::new();
    write_u32(&mut result, 8);
    write_u32(&mut result, (body.len() + 8) as u32);
    write_u64(&mut result, crc64(&body));
    append(&mut result, &body);
    assert(result@ =~= index_bytes(models, segments@));
    Ok(result)
}

// ---------------------------------------------------------------------------
// Custom paths
// ---------------------------------------------------------------------------

/// Zero-terminated paths.
pub open spec fn path_bytes(paths: Seq<Seq<char>>) -> Seq<u8>
    decreases paths.len(),
{
    if paths.len() == 0 {
        seq![]
    } else {
        path_bytes(paths.drop_last()) + utf8::encode_utf8(paths.last()).push(0)
    }
}

/// The table of custom paths, stored as it is.
pub open spec fn lxrs_bytes(paths: Seq<Seq<char>>) -> Seq<u8> {
    let encoded = path_bytes(paths);
    binary::le_bytes(LXRS_MAGIC as nat, 4) + binary::le_bytes(1, 4) + binary::le_bytes(
        encoded.len(),
        4,
    ) + binary::le_bytes(encoded.len(), 4) + binary::le_bytes(paths.len(), 4) + encoded
}

/// The table's sizes fit in its fields.
pub open spec fn lxrs_fits(paths: Seq<Seq<char>>) -> bool {
    path_bytes(paths).len() + 20 <= 0xffff_ffff && paths.len() <= 0xffff_ffff
}

/// Appends the table of custom paths, if its sizes fit in its fields.
pub fn write_lxrs(output: &mut Vec<u8>, paths: &[String]) -> (result: Result<u32, ArchiveError>)
    ensures
        if lxrs_fits(archive::texts(paths@)) {
            result matches Ok(length) && length == lxrs_bytes(archive::texts(paths@)).len()
                && final(output)@ == old(output)@ + lxrs_bytes(archive::texts(paths@))
        } else {
            result matches Err(error) && error == ArchiveError::CountOverflow
        },
{
    let ghost all = archive::texts(paths@);
    let mut encoded: Vec<u8> = Vec::new();
    let mut i: usize = 0;
    assert(all.subrange(0, 0) =~= Seq::<Seq<char>>::empty());
    while i < paths.len()
        invariant
            i <= paths@.len(),
            all == archive::texts(paths@),
            encoded@ == path_bytes(all.subrange(0, i as int)),
        decreases paths@.len() - i,
    {
        let ghost before = encoded@;
        proof {
            assert(all.subrange(0, i + 1).drop_last() =~= all.subrange(0, i as int));
            assert(all[i as int] == paths@[i as int]@);
        }
        append(&mut encoded, paths[i].as_str().as_bytes());
        encoded.push(0);
        i = i + 1;
        assert(encoded@ =~= before + utf8::encode_utf8(all[i - 1]).push(0));
    }
    assert(all.subrange(0, all.len() as int) =~= all);
    if encoded.len() > 0xffff_ffff - 20 || paths.len() > 0xffff_ffff {
        return Err(ArchiveError::CountOverflow);
    }
    let ghost start = output@;
    write_u32(output, LXRS_MAGIC);
    write_u32(output, 1);
    write_u32(output, encoded.len() as u32);
    write_u32(output, encoded.len() as u32);
    write_u32(output, paths.len() as u32);
    append(output, &encoded);
    proof {
        assert(output@ =~= start + lxrs_bytes(all));
        binary::lemma_le_bytes_len(LXRS_MAGIC as nat, 4);
        binary::lemma_le_bytes_len(1, 4);
        binary::lemma_le_bytes_len(encoded@.len(), 4);
        binary::lemma_le_bytes_len(paths@.len(), 4);
    }
    Ok((encoded.len() + 20) as u32)
}

// ---------------------------------------------------------------------------
// Files
// ---------------------------------------------------------------------------

/// Ends with one of these in lower case.
pub open spec fn is_streamed(path: Seq<char>) -> bool {
    let lower = text::ascii_lower(path);
    ||| text::ends_with(lower, ".bk2"@)
    ||| text::ends_with(lower, ".bnk"@)
    ||| text::ends_with(lower, ".opusinfo"@)
    ||| text::ends_with(lower, ".wem"@)
    ||| text::ends_with(lower, ".bin"@)
    ||| text::ends_with(lower, "soundbanks.json"@)
}

/// A file that is never compressed.
pub open spec fn is_stored(path: Seq<char>) -> bool {
    let lower = text::ascii_lower(path);
    ||| is_streamed(path)
    ||| text::ends_with(lower, ".dat"@)
    ||| text::ends_with(lower, ".opuspak"@)
}

fn needs_alignment(lower: &[char]) -> (result: bool)
    ensures
        forall|path: Seq<char>| text::ascii_lower(path) == lower@ ==> result == #[trigger] is_streamed(path),
{
    has_suffix(lower, ".bk2") || has_suffix(lower, ".bnk") || has_suffix(lower, ".opusinfo")
        || has_suffix(lower, ".wem") || has_suffix(lower, ".bin") || has_suffix(
        lower,
        "soundbanks.json",
    )
}

/// Tells whether a file is never compressed.
pub fn should_store_uncompressed(depot_path: &str) -> (result: bool)
    ensures
        result == is_stored(depot_path@),
{
    let lower: Vec<char> = ascii_lower_chars(depot_path);
    needs_alignment(&lower) || has_suffix(&lower, ".dat") || has_suffix(&lower, ".opuspak")
}

/// Tells whether a file starts on a page.
pub fn align_if_needed(depot_path: &str) -> (result: bool)
    ensures
        result == is_streamed(depot_path@),
{
    let lower: Vec<char> = ascii_lower_chars(depot_path);
    needs_alignment(&lower)
}

/// The extensions of files that are not packed.
pub open spec fn is_skipped(extension: Seq<char>) -> bool {
    let lower = text::ascii_lower(extension);
    lower == "tmp"@ || lower == "md"@ || lower == "txt"@
}

/// Tells whether files with this extension are not packed.
pub fn is_skipped_extension(extension: &str) -> (result: bool)
    ensures
        result == is_skipped(extension@),
{
    let lower: String = text::text_of(&ascii_lower_chars(extension));
    text::same_text(lower.as_str(), "tmp") || text::same_text(lower.as_str(), "md")
        || text::same_text(lower.as_str(), "txt")
}

/// How many zero bytes fill a page after `position` bytes.
pub open spec fn page_padding(position: nat) -> nat {
    ((4096 - position % 4096) % 4096) as nat
}

/// The bytes start with `CR2W`.
pub open spec fn is_cr2w(bytes: Seq<u8>) -> bool {
    sequence::stands(bytes, 0, seq![67u8, 82u8, 50u8, 87u8])
}

/// What of a file is compressed: all, or the part of a CR2W file before its
/// buffers.
pub open spec fn main_part(bytes: Seq<u8>) -> Result<Seq<u8>, ArchiveError> {
    if !is_cr2w(bytes) {
        Ok(bytes)
    } else {
        match binary::number_at(bytes, 24, 4) {
            None => Err(ArchiveError::InvalidIndex),
            Some(end) => if end <= bytes.len() {
                Ok(bytes.subrange(0, end as int))
            } else {
                Err(ArchiveError::InvalidIndex)
            },
        }
    }
}

pub fn starts_with_cr2w(bytes: &[u8]) -> (result: bool)
    ensures
        result == is_cr2w(bytes@),
{
    let ghost mark = seq![67u8, 82u8, 50u8, 87u8];
    if bytes.len() < 4 {
        return false;
    }
    let result: bool = bytes[0] == 67 && bytes[1] == 82 && bytes[2] == 50 && bytes[3] == 87;
    proof {
        let found = bytes@.subrange(0, 4);
        if result {
            assert(found =~= mark);
        } else {
            assert(found[0] != mark[0] || found[1] != mark[1] || found[2] != mark[2] || found[3]
                != mark[3]);
        }
    }
    result
}

} // verus!
