//! What segments hold, and the frames that carry payloads to a codec process.

use crate::archive::{ArchiveError, ArchiveSegment};
use crate::archive_pack;
use crate::binary;
use crate::binary::{read_u32_le, read_u64_le, write_u32, write_u64};
use crate::kraken::decode;
use crate::kraken::decoder;
use crate::kraken::encoder;
use crate::kraken::stream_laws;
use crate::sequence;
use crate::sequence::{append, part, to_vec};
use vstd::prelude::*;

verus! {

// ---------------------------------------------------------------------------
// Segments
// ---------------------------------------------------------------------------

/// What a segment holds.
pub enum SegmentContent {
    /// The bytes themselves.
    Ready(Vec<u8>),
    /// A stream of this decoded size that another codec has to decode.
    Foreign { size: u32, payload: Vec<u8> },
}

/// What a segment holds, over sequences.
pub ghost enum ContentModel {
    Ready(Seq<u8>),
    Foreign { size: u32, payload: Seq<u8> },
}

impl View for SegmentContent {
    type V = ContentModel;

    open spec fn view(&self) -> ContentModel {
        match self {
            SegmentContent::Ready(bytes) => ContentModel::Ready(bytes@),
            SegmentContent::Foreign { size, payload } => ContentModel::Foreign {
                size: *size,
                payload: payload@,
            },
        }
    }
}

/// The content of a segment with this payload. A first segment that is marked
/// as compressed is decoded; everything else stays as it is.
pub open spec fn segment_content(payload: Seq<u8>, segment: ArchiveSegment, first: bool) -> Result<
    ContentModel,
    ArchiveError,
> {
    if !first || segment.compressed_size == segment.size || !sequence::stands(
        payload,
        0,
        seq![75u8, 65u8, 82u8, 75u8],
    ) {
        Ok(ContentModel::Ready(payload))
    } else {
        match binary::number_at(payload, 4, 4) {
            None => Err(ArchiveError::InvalidIndex),
            Some(size) => {
                let rest = payload.subrange(8, payload.len() as int);
                match decoder::decoded(rest, size) {
                    Ok(bytes) => Ok(ContentModel::Ready(bytes)),
                    Err(_) => Ok(ContentModel::Foreign { size: size as u32, payload: rest }),
                }
            },
        }
    }
}

fn is_kark(bytes: &[u8]) -> (result: bool)
    ensures
        result == sequence::stands(bytes@, 0, seq![75u8, 65u8, 82u8, 75u8]),
{
    let ghost mark = seq![75u8, 65u8, 82u8, 75u8];
    if bytes.len() < 4 {
        return false;
    }
    let result: bool = bytes[0] == 75 && bytes[1] == 65 && bytes[2] == 82 && bytes[3] == 75;
    proof {
        let found = bytes@.subrange(0, 4);
        if result {
            assert(found =~= mark);
        } else {
            assert(found[0] != mark[0] || found[1] != mark[1] || found[2] != mark[2] || found[3]
                != mark[3]);
        }
    }
    result
}

/// Opens a segment.
pub fn read_segment(payload: &[u8], segment: ArchiveSegment, first: bool) -> (result: Result<
    SegmentContent,
    ArchiveError,
>)
    ensures
        match segment_content(payload@, segment, first) {
            Err(error) => result matches Err(e) && e == error,
            Ok(content) => result matches Ok(r) && r@ == content,
        },
{
    if !first || segment.compressed_size == segment.size || !is_kark(payload) {
        return Ok(SegmentContent::Ready(to_vec(payload)));
    }
    let size: u32 = match read_u32_le(payload, 4) {
        Some(size) => size,
        None => return Err(ArchiveError::InvalidIndex),
    };
    let rest: &[u8] = part(payload, 8, payload.len());
    match decode(rest, size as usize) {
        Ok(bytes) => Ok(SegmentContent::Ready(bytes)),
        Err(_) => Ok(SegmentContent::Foreign { size, payload: to_vec(rest) }),
    }
}

/// A payload that was compressed for a segment, or stored as it is, is opened
/// to the same bytes.
pub proof fn law_segment_round_trip(bytes: Seq<u8>, compressed: Option<Seq<u8>>, offset: u64)
    requires
        bytes.len() <= 0xffff_ffff,
        bytes.len() <= usize::MAX,
        compressed is Some ==> compressed->0 == encoder::encoded(bytes),
    ensures
        ({
            let payload = archive_pack::stored_payload(bytes, compressed);
            segment_content(
                payload,
                ArchiveSegment {
                    offset,
                    compressed_size: payload.len() as u32,
                    size: bytes.len() as u32,
                },
                true,
            ) == Ok::<ContentModel, ArchiveError>(ContentModel::Ready(bytes))
        }),
{
    let payload = archive_pack::stored_payload(bytes, compressed);
    match compressed {
        Some(data) => {
            if data.len() + 8 < bytes.len() {
                let mark = seq![75u8, 65u8, 82u8, 75u8];
                let size = binary::le_bytes(bytes.len(), 4);
                binary::lemma_byte_ranges();
                binary::law_read_written(bytes.len(), 4);
                assert(payload =~= mark + (size + data));
                assert(payload.subrange(0, 4) =~= mark);
                assert(payload.subrange(4, 8) =~= size);
                assert(payload.subrange(8, payload.len() as int) =~= data);
                stream_laws::law_decode_encode(bytes);
            }
        },
        None => {},
    }
}

// ---------------------------------------------------------------------------
// Frames
// ---------------------------------------------------------------------------

/// The byte strings of a list.
pub open spec fn byte_strings(list: Seq<Vec<u8>>) -> Seq<Seq<u8>> {
    list.map_values(|bytes: Vec<u8>| bytes@)
}

/// A byte string after its length.
pub open spec fn framed(bytes: Seq<u8>) -> Seq<u8> {
    binary::le_bytes(bytes.len(), 8) + bytes
}

/// Byte strings, each after its length.
pub open spec fn all_framed(list: Seq<Seq<u8>>) -> Seq<u8>
    decreases list.len(),
{
    if list.len() == 0 {
        seq![]
    } else {
        all_framed(list.drop_last()) + framed(list.last())
    }
}

/// A batch: how many byte strings there are, and each after its length.
pub open spec fn batch_bytes(list: Seq<Seq<u8>>) -> Seq<u8> {
    binary::le_bytes(list.len(), 4) + all_framed(list)
}

/// `count` byte strings from `at` on, after those of `found`; they must use up
/// the bytes.
pub open spec fn framed_from(bytes: Seq<u8>, at: nat, count: nat, found: Seq<Seq<u8>>) -> Result<
    Seq<Seq<u8>>,
    ArchiveError,
>
    decreases count,
{
    if count == 0 {
        if at == bytes.len() {
            Ok(found)
        } else {
            Err(ArchiveError::InvalidIndex)
        }
    } else {
        match binary::number_at(bytes, at, 8) {
            None => Err(ArchiveError::InvalidIndex),
            Some(length) => if at + 8 + length > usize::MAX {
                Err(ArchiveError::CountOverflow)
            } else if at + 8 + length > bytes.len() {
                Err(ArchiveError::InvalidIndex)
            } else {
                framed_from(
                    bytes,
                    at + 8 + length,
                    (count - 1) as nat,
                    found.push(bytes.subrange(at as int + 8, (at + 8 + length) as int)),
                )
            },
        }
    }
}

/// The byte strings of a batch of at most `limit`.
pub open spec fn batch(bytes: Seq<u8>, limit: nat) -> Result<Seq<Seq<u8>>, ArchiveError> {
    match binary::number_at(bytes, 0, 4) {
        None => Err(ArchiveError::InvalidIndex),
        Some(count) => if count > limit {
            Err(ArchiveError::InvalidIndex)
        } else {
            framed_from(bytes, 4, count, seq![])
        },
    }
}

/// How many payloads one codec process gets.
pub const COMPRESSION_BATCH_SIZE: usize = 2;

/// Writes a batch.
pub fn write_batch(list: &[Vec<u8>]) -> (result: Vec<u8>)
    requires
        list@.len() <= 0xffff_ffff,
    ensures
        result@ == batch_bytes(byte_strings(list@)),
{
    let ghost all = byte_strings(list@);
    let mut output: Vec<u8> = Vec::new();
    write_u32(&mut output, list.len() as u32);
    let ghost start = output@;
    let mut i: usize = 0;
    assert(all.subrange(0, 0) =~= Seq::<Seq<u8>>::empty());
    assert(start + all_framed(all.subrange(0, 0)) =~= start);
    while i < list.len()
        invariant
            i <= list@.len(),
            all == byte_strings(list@),
            output@ == start + all_framed(all.subrange(0, i as int)),
        decreases list@.len() - i,
    {
        proof {
            assert(all.subrange(0, i + 1).drop_last() =~= all.subrange(0, i as int));
            assert(all[i as int] == list@[i as int]@);
        }
        write_u64(&mut output, list[i].len() as u64);
        append(&mut output, &list[i]);
        i = i + 1;
        assert(output@ =~= start + all_framed(all.subrange(0, i as int)));
    }
    assert(all.subrange(0, all.len() as int) =~= all);
    assert(output@ =~= batch_bytes(all));
    output
}

/// Reads a batch of at most `limit` byte strings.
pub fn read_batch(bytes: &[u8], limit: usize) -> (result: Result<Vec<Vec<u8>>, ArchiveError>)
    ensures
        match batch(bytes@, limit as nat) {
            Err(error) => result matches Err(e) && e == error,
            Ok(list) => result matches Ok(r) && byte_strings(r@) == list,
        },
{
    let count: u32 = match read_u32_le(bytes, 0) {
        Some(count) => count,
        None => return Err(ArchiveError::InvalidIndex),
    };
    if count as usize > limit {
        return Err(ArchiveError::InvalidIndex);
    }
    let mut result: Vec<Vec<u8>> = Vec::new();
    let mut at: usize = 4;
    let mut left: u32 = count;
    let size: usize = bytes.len();
    assert(byte_strings(result@) =~= Seq::<Seq<u8>>::empty());
    while left > 0
        invariant
            at <= size == bytes@.len(),
            batch(bytes@, limit as nat) == framed_from(
                bytes@,
                at as nat,
                left as nat,
                byte_strings(result@),
            ),
        decreases left,
    {
        let length: u64 = match read_u64_le(bytes, at) {
            Some(length) => length,
            None => return Err(ArchiveError::InvalidIndex),
        };
        if length > (usize::MAX - (at + 8)) as u64 {
            return Err(ArchiveError::CountOverflow);
        }
        let end: usize = at + 8 + length as usize;
        if end > size {
            return Err(ArchiveError::InvalidIndex);
        }
        let found: Vec<u8> = to_vec(part(bytes, at + 8, end));
        proof {
            assert(byte_strings(result@.push(found)) =~= byte_strings(result@).push(found@));
        }
        result.push(found);
        at = end;
        left = left - 1;
    }
    if at != size {
        return Err(ArchiveError::InvalidIndex);
    }
    Ok(result)
}

/// Reads what a codec process answers to a batch of `expected` payloads.
pub fn parse_compression_batch(bytes: &[u8], expected: usize) -> (result: Option<Vec<Vec<u8>>>)
    ensures
        match batch(bytes@, expected as nat) {
            Ok(list) if list.len() == expected => result matches Some(r) && byte_strings(r@) == list,
            _ => result is None,
        },
{
    match read_batch(bytes, expected) {
        Ok(list) => {
            assert(byte_strings(list@).len() == list@.len());
            if list.len() == expected {
                Some(list)
            } else {
                None
            }
        },
        Err(_) => None,
    }
}

/// One payload with its decoded size.
pub open spec fn payload_frame(size: nat, payload: Seq<u8>) -> Seq<u8> {
    binary::le_bytes(size, 8) + framed(payload)
}

/// The decoded size and the payload of a frame.
pub open spec fn framed_payload(bytes: Seq<u8>) -> Result<(nat, Seq<u8>), ArchiveError> {
    match (binary::number_at(bytes, 0, 8), binary::number_at(bytes, 8, 8)) {
        (Some(size), Some(length)) => if size > usize::MAX || 16 + length > usize::MAX {
            Err(ArchiveError::CountOverflow)
        } else if 16 + length != bytes.len() {
            Err(ArchiveError::InvalidIndex)
        } else {
            Ok((size, bytes.subrange(16, bytes.len() as int)))
        },
        (Some(size), None) => if size > usize::MAX {
            Err(ArchiveError::CountOverflow)
        } else {
            Err(ArchiveError::InvalidIndex)
        },
        _ => Err(ArchiveError::InvalidIndex),
    }
}

/// Writes the frame of one payload.
pub fn write_payload(size: usize, payload: &[u8]) -> (result: Vec<u8>)
    ensures
        result@ == payload_frame(size as nat, payload@),
{
    let mut output: Vec<u8> = Vec::new();
    write_u64(&mut output, size as u64);
    write_u64(&mut output, payload.len() as u64);
    append(&mut output, payload);
    assert(output@ =~= payload_frame(size as nat, payload@));
    output
}

/// Reads the frame of one payload.
pub fn read_payload(bytes: &[u8]) -> (result: Result<(usize, Vec<u8>), ArchiveError>)
    ensures
        match framed_payload(bytes@) {
            Err(error) => result matches Err(e) && e == error,
            Ok((size, payload)) => result matches Ok(r) && r.0 == size && r.1@ == payload,
        },
{
    let size: u64 = match read_u64_le(bytes, 0) {
        Some(size) => size,
        None => return Err(ArchiveError::InvalidIndex),
    };
    if size > usize::MAX as u64 {
        return Err(ArchiveError::CountOverflow);
    }
    let length: u64 = match read_u64_le(bytes, 8) {
        Some(length) => length,
        None => return Err(ArchiveError::InvalidIndex),
    };
    if length > (usize::MAX - 16) as u64 {
        return Err(ArchiveError::CountOverflow);
    }
    if length as usize + 16 != bytes.len() {
        return Err(ArchiveError::InvalidIndex);
    }
    Ok((size as usize, to_vec(part(bytes, 16, bytes.len()))))
}

/// A frame of one payload is read back.
pub proof fn law_payload_frame(size: nat, payload: Seq<u8>)
    requires
        size <= usize::MAX,
        16 + payload.len() <= usize::MAX,
    ensures
        framed_payload(payload_frame(size, payload)) == Ok::<(nat, Seq<u8>), ArchiveError>(
            (size, payload),
        ),
{
    let bytes = payload_frame(size, payload);
    let a = binary::le_bytes(size, 8);
    let b = binary::le_bytes(payload.len(), 8);
    binary::lemma_byte_ranges();
    binary::law_read_written(size, 8);
    binary::law_read_written(payload.len(), 8);
    assert(bytes.subrange(0, 8) =~= a);
    assert(bytes.subrange(8, 16) =~= b);
    assert(bytes.subrange(16, bytes.len() as int) =~= payload);
}

proof fn lemma_framed_prefix(list: Seq<Seq<u8>>, i: int)
    requires
        0 <= i <= list.len(),
    ensures
        sequence::stands(all_framed(list), 0, all_framed(list.subrange(0, i))),
    decreases list.len() - i,
{
    if i == list.len() {
        assert(list.subrange(0, i) =~= list);
        assert(all_framed(list).subrange(0, all_framed(list).len() as int) =~= all_framed(list));
    } else {
        lemma_framed_prefix(list, i + 1);
        let before = all_framed(list.subrange(0, i));
        let after = all_framed(list.subrange(0, i + 1));
        assert(list.subrange(0, i + 1).drop_last() =~= list.subrange(0, i));
        assert(after.subrange(0, before.len() as int) =~= before);
        sequence::lemma_stands_within(all_framed(list), 0, after, 0, before);
    }
}

proof fn lemma_framed_from(bytes: Seq<u8>, list: Seq<Seq<u8>>, i: int)
    requires
        0 <= i <= list.len(),
        bytes.len() <= usize::MAX,
        bytes.len() == 4 + all_framed(list).len(),
        sequence::stands(bytes, 4, all_framed(list)),
    ensures
        framed_from(
            bytes,
            4 + all_framed(list.subrange(0, i)).len(),
            (list.len() - i) as nat,
            list.subrange(0, i),
        ) == Ok::<Seq<Seq<u8>>, ArchiveError>(list),
    decreases list.len() - i,
{
    if i == list.len() {
        assert(list.subrange(0, i) =~= list);
    } else {
        let before = all_framed(list.subrange(0, i));
        let after = all_framed(list.subrange(0, i + 1));
        let at = 4 + before.len();
        let length = binary::le_bytes(list[i].len(), 8);
        assert(list.subrange(0, i + 1).drop_last() =~= list.subrange(0, i));
        lemma_framed_prefix(list, i + 1);
        sequence::lemma_stands_within(bytes, 4, all_framed(list), 0, after);
        sequence::lemma_stands_split(bytes, 4, before, framed(list[i]));
        sequence::lemma_stands_split(bytes, at, length, list[i]);
        binary::lemma_byte_ranges();
        binary::lemma_le_bytes_len(list[i].len(), 8);
        binary::lemma_number_stands(bytes, at, list[i].len(), 8);
        assert(list.subrange(0, i).push(list[i]) =~= list.subrange(0, i + 1));
        lemma_framed_from(bytes, list, i + 1);
    }
}

/// A batch is read back.
pub proof fn law_batch(list: Seq<Seq<u8>>, limit: nat)
    requires
        list.len() <= limit,
        list.len() <= 0xffff_ffff,
        batch_bytes(list).len() <= usize::MAX,
    ensures
        batch(batch_bytes(list), limit) == Ok::<Seq<Seq<u8>>, ArchiveError>(list),
{
    let bytes = batch_bytes(list);
    let count = binary::le_bytes(list.len(), 4);
    binary::lemma_byte_ranges();
    binary::law_read_written(list.len(), 4);
    assert(bytes.subrange(0, 4) =~= count);
    assert(bytes.subrange(4, bytes.len() as int) =~= all_framed(list));
    lemma_framed_from(bytes, list, 0);
    assert(list.subrange(0, 0) =~= Seq::<Seq<u8>>::empty());
}

} // verus!
