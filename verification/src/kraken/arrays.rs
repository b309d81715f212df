//! Byte arrays in their envelopes: stored, entropy coded, run-length coded and
//! composed of other arrays.

use super::bits;
use super::cursor;
use super::cursor::Cursor;
use super::huffman;
use super::huffman::decode_huffman_group;
use super::readers;
use super::readers::PairedBits;
use super::tables;
use super::tables::decode_huffman_table;
use super::tans;
use super::tans::decode_tans;
use super::KrakenError;
use crate::sequence;
use crate::sequence::{append, append_repeated, part, to_vec};
use vstd::arithmetic::power2::{lemma2_to64, lemma_pow2_strictly_increases};
use vstd::prelude::*;

verus! {

/// How deep arrays may nest.
pub const MAX_ARRAY_RECURSION: usize = 16;

// ---------------------------------------------------------------------------
// Run lengths
// ---------------------------------------------------------------------------

/// What the command before `back` asks for: literals, repetitions, and where
/// the commands then end.
pub open spec fn rle_counts(commands: Seq<u8>, front: nat, back: nat) -> Option<(nat, nat, nat)> {
    let command = commands[back - 1];
    if command == 0 || command >= 0x30 {
        Some(((15 - command % 16) as nat, (command / 16) as nat, (back - 1) as nat))
    } else if back - front < 2 {
        None
    } else {
        let word = cursor::le16(commands, back - 2);
        if command >= 0x10 {
            Some((((word - 4096) % 64) as nat, ((word - 4096) / 64) as nat, (back - 2) as nat))
        } else if command >= 9 {
            Some((0, ((word - 0x8ff) * 128) as nat, (back - 2) as nat))
        } else {
            Some((((word - 511) * 64) as nat, 0, (back - 2) as nat))
        }
    }
}

/// Runs commands from the back with literals from the front.
pub open spec fn rle_run(
    commands: Seq<u8>,
    front: nat,
    back: nat,
    byte: u8,
    out: Seq<u8>,
    size: nat,
) -> Option<Seq<u8>>
    decreases back - front,
{
    if front >= back {
        if out.len() == size {
            Some(out)
        } else {
            None
        }
    } else if commands[back - 1] == 1 {
        if front >= back - 1 {
            None
        } else {
            rle_run(commands, front + 1, (back - 1) as nat, commands[front as int], out, size)
        }
    } else {
        match rle_counts(commands, front, back) {
            None => None,
            Some((literals, run, back)) => if front + literals > back || out.len() + literals + run
                > size {
                None
            } else {
                rle_run(
                    commands,
                    front + literals,
                    back,
                    byte,
                    out + commands.subrange(front as int, (front + literals) as int)
                        + sequence::repeated(byte, run),
                    size,
                )
            },
        }
    }
}

fn run_rle_commands(commands: &[u8], decoded_size: usize) -> (result: Option<Vec<u8>>)
    ensures
        match rle_run(commands@, 0, commands@.len(), 0, seq![], decoded_size as nat) {
            None => result is None,
            Some(out) => result matches Some(r) && r@ == out,
        },
{
    let mut front: usize = 0;
    let mut back: usize = commands.len();
    let mut output: Vec<u8> = Vec::new();
    let mut byte: u8 = 0;
    while front < back
        invariant
            front <= back <= commands@.len(),
            output@.len() <= decoded_size,
            rle_run(
                commands@,
                front as nat,
                back as nat,
                byte,
                output@,
                decoded_size as nat,
            ) == rle_run(commands@, 0, commands@.len(), 0, seq![], decoded_size as nat),
        decreases back - front,
    {
        let command: u8 = commands[back - 1];
        if command == 1 {
            if front >= back - 1 {
                return None;
            }
            byte = commands[front];
            front = front + 1;
            back = back - 1;
        } else {
            let literals: usize;
            let run: usize;
            if command == 0 || command >= 0x30 {
                back = back - 1;
                literals = (15 - command % 16) as usize;
                run = (command / 16) as usize;
            } else {
                if back - front < 2 {
                    return None;
                }
                back = back - 2;
                let word: usize = commands[back] as usize + commands[back + 1] as usize * 256;
                if command >= 0x10 {
                    literals = (word - 4096) % 64;
                    run = (word - 4096) / 64;
                } else if command >= 9 {
                    literals = 0;
                    run = (word - 0x8ff) * 128;
                } else {
                    literals = (word - 511) * 64;
                    run = 0;
                }
            }
            if literals > back - front {
                return None;
            }
            if literals > decoded_size - output.len() || run > decoded_size - output.len()
                - literals {
                return None;
            }
            append(&mut output, part(commands, front, front + literals));
            append_repeated(&mut output, byte, run);
            front = front + literals;
        }
    }
    if output.len() != decoded_size {
        return None;
    }
    Some(output)
}

// ---------------------------------------------------------------------------
// Envelopes
// ---------------------------------------------------------------------------

/// An error of an envelope at `offset`.
pub open spec fn invalid(offset: nat) -> KrakenError {
    KrakenError::InvalidArray { offset: offset as usize }
}

/// The error of a read at `offset` past the end.
pub open spec fn cut_off(offset: nat) -> KrakenError {
    KrakenError::Truncated { offset: offset as usize }
}

/// The size of a stored array and where its bytes start.
pub open spec fn stored_header(bytes: Seq<u8>, at: nat, base: nat) -> Result<
    (nat, nat),
    KrakenError,
> {
    if bytes[at as int] >= 0x80 {
        if at + 2 > bytes.len() {
            Err(cut_off(base + at))
        } else {
            Ok((cursor::be16(bytes, at as int) % 4096, at + 2))
        }
    } else if at + 3 > bytes.len() {
        Err(cut_off(base + at))
    } else if cursor::be24(bytes, at as int) > 0x3_ffff {
        Err(invalid(base + at))
    } else {
        Ok((cursor::be24(bytes, at as int), at + 3))
    }
}

/// The sizes of a coded array, before and after decoding, and where its payload
/// starts.
pub open spec fn coded_header(bytes: Seq<u8>, at: nat, base: nat) -> Result<
    (nat, nat, nat),
    KrakenError,
> {
    if bytes[at as int] >= 0x80 {
        if at + 3 > bytes.len() {
            Err(cut_off(base + at))
        } else {
            let value = cursor::be24(bytes, at as int);
            Ok((value % 1024, value % 1024 + (value / 1024) % 1024 + 1, at + 3))
        }
    } else if at + 5 > bytes.len() {
        Err(cut_off(base + at + 1))
    } else {
        let value = cursor::be32(bytes, at as int + 1);
        let compressed = value % 0x4_0000;
        let decoded = ((value / 0x4_0000 + bytes[at as int] * 0x4000) % 0x4_0000 + 1) as nat;
        if compressed >= decoded {
            Err(invalid(base + at))
        } else {
            Ok((compressed, decoded, at + 5))
        }
    }
}

/// The array at `at` of bytes that stand at `base` of the stream, and where it
/// ends. It must have the required size, if there is one.
#[verifier::opaque]
pub open spec fn array(
    bytes: Seq<u8>,
    at: nat,
    base: nat,
    required: Option<usize>,
    depth: nat,
) -> Result<(Seq<u8>, nat), KrakenError>
    decreases 20 - depth, 0nat, 0nat,
{
    if depth >= MAX_ARRAY_RECURSION {
        Err(invalid(base + at))
    } else if at >= bytes.len() {
        Err(cut_off(base + at))
    } else {
        let kind = (bytes[at as int] / 16) % 8;
        if kind > 5 {
            Err(invalid(base + at))
        } else if kind == 0 {
            match stored_header(bytes, at, base) {
                Err(error) => Err(error),
                Ok((size, next)) => if required is Some && required->0 != size {
                    Err(invalid(base + at))
                } else if next + size > bytes.len() {
                    Err(cut_off(base + next))
                } else {
                    Ok((bytes.subrange(next as int, (next + size) as int), next + size))
                },
            }
        } else {
            match coded_header(bytes, at, base) {
                Err(error) => Err(error),
                Ok((compressed, decoded, next)) => if required is Some && required->0 != decoded {
                    Err(invalid(base + at))
                } else if next + compressed > bytes.len() {
                    Err(cut_off(base + next))
                } else {
                    let payload = bytes.subrange(next as int, (next + compressed) as int);
                    let offset = (base + next) as usize;
                    let result = if kind == 1 {
                        match tans::tans_payload(payload, decoded) {
                            None => Err(KrakenError::InvalidArray { offset }),
                            Some(out) => Ok(out),
                        }
                    } else if kind == 2 {
                        one_partition(payload, decoded, offset)
                    } else if kind == 4 {
                        two_partitions(payload, decoded, offset)
                    } else if kind == 3 {
                        rle(payload, decoded, offset, depth + 1)
                    } else {
                        composed(payload, decoded, offset, depth + 1)
                    };
                    match result {
                        Err(error) => Err(error),
                        Ok(out) => Ok((out, next + compressed)),
                    }
                },
            }
        }
    }
}

/// A stored array whose header has been read.
pub proof fn lemma_stored_array(
    bytes: Seq<u8>,
    at: nat,
    base: nat,
    required: Option<usize>,
    depth: nat,
    size: nat,
    next: nat,
)
    requires
        depth < MAX_ARRAY_RECURSION,
        at < bytes.len(),
        (bytes[at as int] / 16) % 8 == 0,
        stored_header(bytes, at, base) == Ok::<(nat, nat), KrakenError>((size, next)),
        required is Some ==> required->0 == size,
        next + size <= bytes.len(),
    ensures
        array(bytes, at, base, required, depth) == Ok::<(Seq<u8>, nat), KrakenError>(
            (bytes.subrange(next as int, (next + size) as int), next + size),
        ),
{
    reveal(array);
}

/// A coded array whose header has been read.
pub proof fn lemma_coded_array(
    bytes: Seq<u8>,
    at: nat,
    base: nat,
    required: Option<usize>,
    kind: u8,
    compressed: nat,
    decoded: nat,
    next: nat,
)
    requires
        at < bytes.len(),
        kind == (bytes[at as int] / 16) % 8,
        1 <= kind <= 3,
        coded_header(bytes, at, base) == Ok::<(nat, nat, nat), KrakenError>(
            (compressed, decoded, next),
        ),
        required is Some ==> required->0 == decoded,
        next + compressed <= bytes.len(),
    ensures
        ({
            let payload = bytes.subrange(next as int, (next + compressed) as int);
            let offset = (base + next) as usize;
            array(bytes, at, base, required, 0) == match (if kind == 1 {
                match tans::tans_payload(payload, decoded) {
                    None => Err(KrakenError::InvalidArray { offset }),
                    Some(out) => Ok(out),
                }
            } else if kind == 2 {
                one_partition(payload, decoded, offset)
            } else {
                rle(payload, decoded, offset, 1)
            }) {
                Err(error) => Err(error),
                Ok(out) => Ok((out, next + compressed)),
            }
        }),
{
    reveal(array);
}

/// A Huffman table and one group.
pub open spec fn one_partition(payload: Seq<u8>, size: nat, offset: usize) -> Result<
    Seq<u8>,
    KrakenError,
> {
    match tables::huffman_table(payload) {
        None => Err(KrakenError::UnsupportedQuantum { offset }),
        Some((entries, start)) => huffman::huffman_group(
            entries,
            payload.subrange(start as int, payload.len() as int),
            size,
            (offset + start) as usize,
        ),
    }
}

/// A Huffman table, the length of the first of two groups, and the groups; the
/// first group decodes to the larger half.
pub open spec fn two_partitions(payload: Seq<u8>, size: nat, offset: usize) -> Result<
    Seq<u8>,
    KrakenError,
> {
    match tables::huffman_table(payload) {
        None => Err(KrakenError::UnsupportedQuantum { offset }),
        Some((entries, start)) => if start + 3 > payload.len() {
            Err(cut_off(offset as nat + start))
        } else {
            let s = start as int;
            let first_size = payload[s] + 256 * payload[s + 1] + 0x10000 * payload[s + 2];
            let groups = payload.subrange(s + 3, payload.len() as int);
            let first_decoded = (size + 1) / 2;
            if first_size > groups.len() {
                Err(KrakenError::InvalidArray { offset })
            } else {
                match huffman::huffman_group(
                    entries,
                    groups.subrange(0, first_size),
                    first_decoded,
                    (offset + start + 3) as usize,
                ) {
                    Err(error) => Err(error),
                    Ok(first) => match huffman::huffman_group(
                        entries,
                        groups.subrange(first_size, groups.len() as int),
                        (size - first_decoded) as nat,
                        (offset + start + 3 + first_size) as usize,
                    ) {
                        Err(error) => Err(error),
                        Ok(second) => Ok(first + second),
                    },
                }
            }
        },
    }
}

/// Run-length coded bytes: a single byte is repeated, else the commands stand
/// in the payload, the first part of them possibly as an array.
pub open spec fn rle(payload: Seq<u8>, size: nat, offset: usize, depth: nat) -> Result<
    Seq<u8>,
    KrakenError,
>
    decreases 20 - depth, 2nat, 0nat,
{
    if payload.len() == 0 {
        Err(KrakenError::InvalidArray { offset })
    } else if payload.len() == 1 {
        Ok(sequence::repeated(payload[0], size))
    } else {
        let commands = if payload[0] == 0 {
            Ok(payload.subrange(1, payload.len() as int))
        } else {
            match array(payload, 0, offset as nat, None, depth) {
                Err(error) => Err(error),
                Ok((decoded, next)) => Ok(
                    decoded + payload.subrange(next as int, payload.len() as int),
                ),
            }
        };
        match commands {
            Err(error) => Err(error),
            Ok(commands) => match rle_run(commands, 0, commands.len(), 0, seq![], size) {
                None => Err(KrakenError::InvalidArray { offset }),
                Some(out) => Ok(out),
            },
        }
    }
}

/// `count` arrays one after the other, appended to `out`, which may not outgrow
/// `size`.
pub open spec fn joined(
    bytes: Seq<u8>,
    at: nat,
    base: usize,
    count: nat,
    depth: nat,
    out: Seq<u8>,
    size: nat,
) -> Result<(Seq<u8>, nat), KrakenError>
    decreases 20 - depth, 1nat, count,
{
    if count == 0 {
        Ok((out, at))
    } else {
        match array(bytes, at, base as nat, None, depth) {
            Err(error) => Err(error),
            Ok((next_out, next)) => if out.len() + next_out.len() > size {
                Err(KrakenError::InvalidArray { offset: base })
            } else {
                joined(bytes, next, base, (count - 1) as nat, depth, out + next_out, size)
            },
        }
    }
}

/// `count` arrays one after the other.
pub open spec fn listed(
    bytes: Seq<u8>,
    at: nat,
    base: nat,
    count: nat,
    depth: nat,
    arrays: Seq<Seq<u8>>,
) -> Result<(Seq<Seq<u8>>, nat), KrakenError>
    decreases 20 - depth, 1nat, count,
{
    if count == 0 {
        Ok((arrays, at))
    } else {
        match array(bytes, at, base, None, depth) {
            Err(error) => Err(error),
            Ok((out, next)) => listed(
                bytes,
                next,
                base,
                (count - 1) as nat,
                depth,
                arrays.push(out),
            ),
        }
    }
}

/// An array that is composed of others: joined, or picked together by indexes.
pub open spec fn composed(payload: Seq<u8>, size: nat, offset: usize, depth: nat) -> Result<
    Seq<u8>,
    KrakenError,
>
    decreases 20 - depth, 3nat, 0nat,
{
    if payload.len() == 0 {
        Err(KrakenError::Truncated { offset })
    } else if payload[0] >= 0x80 {
        indexed(
            payload,
            1,
            offset as nat,
            offset,
            (payload[0] % 64) as nat,
            1,
            size,
            depth,
        )
    } else if payload[0] < 2 {
        Err(KrakenError::UnsupportedQuantum { offset })
    } else {
        match joined(payload, 1, offset, payload[0] as nat, depth, seq![], size) {
            Err(error) => Err(error),
            Ok((out, at)) => if at != payload.len() || out.len() != size {
                Err(invalid(offset as nat + at))
            } else {
                Ok(out)
            },
        }
    }
}

/// Numbers of the given bit counts, from the front and the back in turn.
pub open spec fn alternating_values(
    front: Seq<bool>,
    back: Seq<bool>,
    widths: Seq<u8>,
    front_at: nat,
    back_at: nat,
    values: Seq<usize>,
) -> Option<(Seq<usize>, nat, nat)>
    decreases widths.len() - values.len(),
{
    if values.len() >= widths.len() {
        Some((values, front_at, back_at))
    } else {
        let width = widths[values.len() as int] as nat;
        if values.len() % 2 == 0 {
            match readers::paired_read(front, front_at, back_at, width) {
                None => None,
                Some((value, next)) => alternating_values(
                    front,
                    back,
                    widths,
                    next,
                    back_at,
                    values.push(value as usize),
                ),
            }
        } else {
            match readers::paired_read(back, back_at, front_at, width) {
                None => None,
                Some((value, next)) => alternating_values(
                    front,
                    back,
                    widths,
                    front_at,
                    next,
                    values.push(value as usize),
                ),
            }
        }
    }
}

/// Picks pieces of the sources in the order of the indexes. An index of zero
/// ends a destination, the index `k` takes the next piece of source `k - 1`.
pub open spec fn pick(
    sources: Seq<Seq<u8>>,
    indexes: Seq<u8>,
    lengths: Seq<usize>,
    combined: bool,
    destinations: nat,
    i: nat,
    k: nat,
    positions: Seq<usize>,
    out: Seq<u8>,
    size: nat,
) -> Option<Seq<u8>>
    decreases indexes.len() - i,
{
    if destinations == 0 {
        if i == indexes.len() && k == lengths.len() && out.len() == size && (forall|s: int|
            0 <= s < sources.len() ==> positions[s] == #[trigger] sources[s].len()) {
            Some(out)
        } else {
            None
        }
    } else if i >= indexes.len() {
        None
    } else if indexes[i as int] == 0 {
        pick(
            sources,
            indexes,
            lengths,
            combined,
            (destinations - 1) as nat,
            i + 1,
            if combined {
                k + 1
            } else {
                k
            },
            positions,
            out,
            size,
        )
    } else {
        let s = indexes[i as int] - 1;
        if s >= sources.len() || k >= lengths.len() {
            None
        } else {
            let start = positions[s] as int;
            let end = start + lengths[k as int];
            if end > sources[s].len() || out.len() + lengths[k as int] > size {
                None
            } else {
                pick(
                    sources,
                    indexes,
                    lengths,
                    combined,
                    destinations,
                    i + 1,
                    k + 1,
                    positions.update(s, end as usize),
                    out + sources[s].subrange(start, end),
                    size,
                )
            }
        }
    }
}

/// The low four bits of each byte.
pub open spec fn low_nibbles(bytes: Seq<u8>) -> Seq<u8> {
    bytes.map_values(|b: u8| (b % 16) as u8)
}

/// The high four bits of each byte.
pub open spec fn high_nibbles(bytes: Seq<u8>) -> Seq<u8> {
    bytes.map_values(|b: u8| (b / 16) as u8)
}

/// What follows the indexes and lengths of an indexed array: the bits of the
/// piece lengths, which must end the payload, and the picking.
pub open spec fn picked(
    bytes: Seq<u8>,
    at: nat,
    base: nat,
    offset: usize,
    sources: Seq<Seq<u8>>,
    indexes: Seq<u8>,
    widths: Seq<u8>,
    control: nat,
    destinations: nat,
    size: nat,
) -> Result<Seq<u8>, KrakenError> {
    let bit_bytes = control % 0x4000;
    if indexes.len() == 0 || indexes.last() != 0 {
        Err(KrakenError::InvalidArray { offset })
    } else if at + bit_bytes > bytes.len() {
        Err(cut_off(base + at))
    } else if at + bit_bytes != bytes.len() {
        Err(invalid(base + at + bit_bytes))
    } else {
        let region = bytes.subrange(at as int, (at + bit_bytes) as int);
        match alternating_values(
            bits::msb_bits(region),
            bits::msb_bits(region.reverse()),
            widths,
            0,
            0,
            seq![],
        ) {
            None => Err(KrakenError::InvalidQuantum { offset: (base + at) as usize }),
            Some((lengths, front_at, back_at)) => if !readers::no_unread_bytes(
                8 * bit_bytes,
                front_at,
                back_at,
            ) {
                Err(KrakenError::InvalidArray { offset })
            } else {
                match pick(
                    sources,
                    indexes,
                    lengths,
                    control >= 0x8000,
                    destinations,
                    0,
                    0,
                    Seq::new(sources.len(), |i: int| 0usize),
                    seq![],
                    size,
                ) {
                    None => Err(KrakenError::InvalidArray { offset }),
                    Some(out) => Ok(out),
                }
            },
        }
    }
}

/// An array that is picked together from pieces of `source_count` others.
pub open spec fn indexed(
    bytes: Seq<u8>,
    at: nat,
    base: nat,
    offset: usize,
    source_count: nat,
    destinations: nat,
    size: nat,
    depth: nat,
) -> Result<Seq<u8>, KrakenError>
    decreases 20 - depth, 2nat, 0nat,
{
    if source_count == 0 {
        match array(bytes, at, base, Some(size as usize), depth) {
            Err(error) => Err(error),
            Ok((out, next)) => if next != bytes.len() {
                Err(invalid(base + next))
            } else {
                Ok(out)
            },
        }
    } else {
        match listed(bytes, at, base, source_count, depth, seq![]) {
            Err(error) => Err(error),
            Ok((sources, at)) => if at + 2 > bytes.len() {
                Err(cut_off(base + at))
            } else {
                let control = cursor::le16(bytes, at as int);
                match array(bytes, at + 2, base, None, depth) {
                    Err(error) => Err(error),
                    Ok((indexes, at)) => if indexes.len() < destinations {
                        Err(KrakenError::InvalidArray { offset })
                    } else if control >= 0x8000 {
                        picked(
                            bytes,
                            at,
                            base,
                            offset,
                            sources,
                            low_nibbles(indexes),
                            high_nibbles(indexes),
                            control,
                            destinations,
                            size,
                        )
                    } else {
                        match array(
                            bytes,
                            at,
                            base,
                            Some((indexes.len() - destinations) as usize),
                            depth,
                        ) {
                            Err(error) => Err(error),
                            Ok((widths, at)) => if exists|i: int|
                                0 <= i < widths.len() && #[trigger] widths[i] > 16 {
                                Err(KrakenError::InvalidArray { offset })
                            } else {
                                picked(
                                    bytes,
                                    at,
                                    base,
                                    offset,
                                    sources,
                                    indexes,
                                    widths,
                                    control,
                                    destinations,
                                    size,
                                )
                            },
                        }
                    },
                }
            },
        }
    }
}

// ---------------------------------------------------------------------------
// Decoding
// ---------------------------------------------------------------------------

/// The bytes of each array.
pub open spec fn views(arrays: Seq<Vec<u8>>) -> Seq<Seq<u8>> {
    arrays.map_values(|v: Vec<u8>| v@)
}

fn decode_huffman_one_partition(payload: &[u8], decoded_size: usize, offset: usize) -> (result:
    Result<Vec<u8>, KrakenError>)
    requires
        8 * payload@.len() <= usize::MAX,
        offset + payload@.len() <= usize::MAX,
    ensures
        match one_partition(payload@, decoded_size as nat, offset) {
            Ok(out) => result matches Ok(r) && r@ == out,
            Err(error) => result == Err::<Vec<u8>, KrakenError>(error),
        },
{
    let (table, size) = decode_huffman_table(payload, offset)?;
    decode_huffman_group(&table, part(payload, size, payload.len()), decoded_size, offset + size)
}

#[verifier::spinoff_prover]
#[verifier::rlimit(40)]
fn decode_huffman_two_partitions(payload: &[u8], decoded_size: usize, offset: usize) -> (result:
    Result<Vec<u8>, KrakenError>)
    requires
        8 * payload@.len() <= usize::MAX,
        offset + payload@.len() <= usize::MAX,
    ensures
        match two_partitions(payload@, decoded_size as nat, offset) {
            Ok(out) => result matches Ok(r) && r@ == out,
            Err(error) => result == Err::<Vec<u8>, KrakenError>(error),
        },
{
    let (table, size) = decode_huffman_table(payload, offset)?;
    if payload.len() - size < 3 {
        return Err(KrakenError::Truncated { offset: offset + size });
    }
    let first_size: usize = payload[size] as usize + payload[size + 1] as usize * 256
        + payload[size + 2] as usize * 0x10000;
    let groups: &[u8] = part(payload, size + 3, payload.len());
    if first_size > groups.len() {
        return Err(KrakenError::InvalidArray { offset });
    }
    let first_decoded: usize = decoded_size / 2 + decoded_size % 2;
    let mut output: Vec<u8> = decode_huffman_group(
        &table,
        part(groups, 0, first_size),
        first_decoded,
        offset + size + 3,
    )?;
    let second: Vec<u8> = decode_huffman_group(
        &table,
        part(groups, first_size, groups.len()),
        decoded_size - first_decoded,
        offset + size + 3 + first_size,
    )?;
    append(&mut output, &second);
    Ok(output)
}

fn require_array_size(required_size: Option<usize>, actual: usize, offset: usize) -> (result: Result<
    (),
    KrakenError,
>)
    ensures
        result == if required_size is Some && required_size->0 != actual {
            Err::<(), KrakenError>(KrakenError::InvalidArray { offset })
        } else {
            Ok::<(), KrakenError>(())
        },
{
    match required_size {
        Some(required) => if required != actual {
            Err(KrakenError::InvalidArray { offset })
        } else {
            Ok(())
        },
        None => Ok(()),
    }
}

/// Decodes the array at the cursor.
pub fn decode_array(cursor: &mut Cursor<'_>, required_size: Option<usize>, depth: usize) -> (result:
    Result<Vec<u8>, KrakenError>)
    requires
        old(cursor).wf(),
    ensures
        final(cursor).wf(),
        final(cursor).same_source(old(cursor)),
        match array(
            old(cursor).bytes(),
            old(cursor).at(),
            old(cursor).base(),
            required_size,
            depth as nat,
        ) {
            Ok((out, next)) => (result matches Ok(r) && r@ == out) && final(cursor).at() == next,
            Err(error) => result == Err::<Vec<u8>, KrakenError>(error),
        },
    decreases 20 - depth, 0nat, 0nat,
{
    reveal(array);
    if depth >= MAX_ARRAY_RECURSION {
        return Err(KrakenError::InvalidArray { offset: cursor.absolute_offset() });
    }
    proof {
        cursor.lemma_bound();
    }
    let start: usize = cursor.absolute_offset();
    let first: u8 = cursor.peek_byte()?;
    let kind: u8 = (first / 16) % 8;
    if kind > 5 {
        return Err(KrakenError::InvalidArray { offset: start });
    }
    if kind == 0 {
        let size: usize = if first >= 0x80 {
            (cursor.read_be16()? % 4096) as usize
        } else {
            let value: u32 = cursor.read_be24()?;
            if value > 0x3_ffff {
                return Err(KrakenError::InvalidArray { offset: start });
            }
            value as usize
        };
        require_array_size(required_size, size, start)?;
        let bytes: &[u8] = cursor.take(size)?;
        return Ok(to_vec(bytes));
    }
    let compressed: usize;
    let decoded: usize;
    if first >= 0x80 {
        let value: u32 = cursor.read_be24()?;
        compressed = (value % 1024) as usize;
        decoded = compressed + ((value / 1024) % 1024) as usize + 1;
    } else {
        cursor.read_byte()?;
        let value: u32 = cursor.read_be32()?;
        compressed = (value % 0x4_0000) as usize;
        decoded = ((value / 0x4_0000 + first as u32 * 0x4000) % 0x4_0000) as usize + 1;
        if compressed >= decoded {
            return Err(KrakenError::InvalidArray { offset: start });
        }
    }
    require_array_size(required_size, decoded, start)?;
    let offset: usize = cursor.absolute_offset();
    proof {
        cursor.lemma_bound();
    }
    let payload: &[u8] = cursor.take(compressed)?;
    if kind == 1 {
        decode_tans(payload, decoded, offset)
    } else if kind == 2 {
        decode_huffman_one_partition(payload, decoded, offset)
    } else if kind == 4 {
        decode_huffman_two_partitions(payload, decoded, offset)
    } else if kind == 3 {
        decode_rle(payload, decoded, offset, depth + 1)
    } else {
        decode_recursive_arrays(payload, decoded, offset, depth + 1)
    }
}

/// Decodes run-length coded bytes.
pub fn decode_rle(payload: &[u8], decoded_size: usize, offset: usize, depth: usize) -> (result: Result<
    Vec<u8>,
    KrakenError,
>)
    requires
        offset + payload@.len() <= usize::MAX,
    ensures
        match rle(payload@, decoded_size as nat, offset, depth as nat) {
            Ok(out) => result matches Ok(r) && r@ == out,
            Err(error) => result == Err::<Vec<u8>, KrakenError>(error),
        },
    decreases 20 - depth, 2nat, 0nat,
{
    reveal(array);
    if payload.len() == 0 {
        return Err(KrakenError::InvalidArray { offset });
    }
    if payload.len() == 1 {
        let mut output: Vec<u8> = Vec::new();
        append_repeated(&mut output, payload[0], decoded_size);
        proof {
            assert(output@ =~= sequence::repeated(payload@[0], decoded_size as nat));
        }
        return Ok(output);
    }
    let commands: Vec<u8> = if payload[0] == 0 {
        to_vec(part(payload, 1, payload.len()))
    } else {
        let mut cursor = Cursor::new(payload, offset);
        let mut decoded: Vec<u8> = decode_array(&mut cursor, None, depth)?;
        append(&mut decoded, cursor.remaining());
        decoded
    };
    match run_rle_commands(&commands, decoded_size) {
        Some(output) => Ok(output),
        None => Err(KrakenError::InvalidArray { offset }),
    }
}

/// Decodes an array that is composed of others.
pub fn decode_recursive_arrays(
    payload: &[u8],
    decoded_size: usize,
    offset: usize,
    depth: usize,
) -> (result: Result<Vec<u8>, KrakenError>)
    requires
        offset + payload@.len() <= usize::MAX,
    ensures
        match composed(payload@, decoded_size as nat, offset, depth as nat) {
            Ok(out) => result matches Ok(r) && r@ == out,
            Err(error) => result == Err::<Vec<u8>, KrakenError>(error),
        },
    decreases 20 - depth, 3nat, 0nat,
{
    reveal(array);
    let mut cursor = Cursor::new(payload, offset);
    let count_byte: u8 = cursor.read_byte()?;
    if count_byte >= 0x80 {
        let source_count: usize = (count_byte % 64) as usize;
        return decode_multi_array(&mut cursor, source_count, 1, decoded_size, offset, depth);
    }
    if count_byte < 2 {
        return Err(KrakenError::UnsupportedQuantum { offset });
    }
    let mut output: Vec<u8> = Vec::new();
    let mut left: usize = count_byte as usize;
    while left > 0
        invariant
            cursor.wf(),
            cursor.bytes() == payload@,
            cursor.base() == offset,
            output@.len() <= decoded_size,
            joined(
                payload@,
                cursor.at(),
                offset,
                left as nat,
                depth as nat,
                output@,
                decoded_size as nat,
            ) == joined(
                payload@,
                1,
                offset,
                payload@[0] as nat,
                depth as nat,
                seq![],
                decoded_size as nat,
            ),
            payload@.len() > 0,
            2 <= payload@[0] < 0x80,
        decreases left,
    {
        reveal(array);
        let next: Vec<u8> = decode_array(&mut cursor, None, depth)?;
        if next.len() > decoded_size - output.len() {
            return Err(KrakenError::InvalidArray { offset });
        }
        append(&mut output, &next);
        left = left - 1;
    }
    if !cursor.is_empty() || output.len() != decoded_size {
        return Err(KrakenError::InvalidArray { offset: cursor.absolute_offset() });
    }
    Ok(output)
}

fn decode_sources(cursor: &mut Cursor<'_>, count: usize, depth: usize) -> (result: Result<
    Vec<Vec<u8>>,
    KrakenError,
>)
    requires
        old(cursor).wf(),
    ensures
        final(cursor).wf(),
        final(cursor).same_source(old(cursor)),
        match listed(
            old(cursor).bytes(),
            old(cursor).at(),
            old(cursor).base(),
            count as nat,
            depth as nat,
            seq![],
        ) {
            Ok((arrays, next)) => (result matches Ok(r) && views(r@) == arrays && r@.len() == count)
                && final(cursor).at() == next,
            Err(error) => result == Err::<Vec<Vec<u8>>, KrakenError>(error),
        },
    decreases 20 - depth, 1nat, 0nat,
{
    reveal(array);
    let mut sources: Vec<Vec<u8>> = Vec::new();
    assert(views(sources@) =~= Seq::<Seq<u8>>::empty());
    let mut left: usize = count;
    while left > 0
        invariant
            left <= count,
            sources@.len() == count - left,
            cursor.wf(),
            cursor.same_source(old(cursor)),
            listed(
                cursor.bytes(),
                cursor.at(),
                cursor.base(),
                left as nat,
                depth as nat,
                views(sources@),
            ) == listed(
                old(cursor).bytes(),
                old(cursor).at(),
                old(cursor).base(),
                count as nat,
                depth as nat,
                seq![],
            ),
        decreases left,
    {
        reveal(array);
        let next: Vec<u8> = decode_array(cursor, None, depth)?;
        let ghost before = sources@;
        let ghost bytes = next@;
        sources.push(next);
        assert(views(sources@) =~= views(before).push(bytes));
        left = left - 1;
    }
    Ok(sources)
}

fn split_nibbles(bytes: &[u8]) -> (result: (Vec<u8>, Vec<u8>))
    ensures
        result.0@ == low_nibbles(bytes@),
        result.1@ == high_nibbles(bytes@),
{
    let mut low: Vec<u8> = Vec::new();
    let mut high: Vec<u8> = Vec::new();
    let mut i: usize = 0;
    while i < bytes.len()
        invariant
            i <= bytes@.len(),
            low@ =~= low_nibbles(bytes@).subrange(0, i as int),
            high@ =~= high_nibbles(bytes@).subrange(0, i as int),
        decreases bytes@.len() - i,
    {
        low.push(bytes[i] % 16);
        high.push(bytes[i] / 16);
        i = i + 1;
    }
    assert(low@ =~= low_nibbles(bytes@));
    assert(high@ =~= high_nibbles(bytes@));
    (low, high)
}

fn read_alternating(bits: &mut PairedBits<'_>, widths: &[u8]) -> (result: Result<
    Vec<usize>,
    KrakenError,
>)
    requires
        old(bits).wf(),
        old(bits).front_at() == 0,
        old(bits).back_at() == 0,
        forall|i: int| 0 <= i < widths@.len() ==> #[trigger] widths@[i] <= 16,
    ensures
        final(bits).wf(),
        final(bits).same_source(old(bits)),
        match alternating_values(old(bits).front(), old(bits).back(), widths@, 0, 0, seq![]) {
            Some((values, front_at, back_at)) => (result matches Ok(r) && r@ == values) && final(bits).front_at() == front_at && final(bits).back_at() == back_at,
            None => result == Err::<Vec<usize>, KrakenError>(old(bits).error()),
        },
{
    let mut values: Vec<usize> = Vec::new();
    while values.len() < widths.len()
        invariant
            values@.len() <= widths@.len(),
            forall|i: int| 0 <= i < widths@.len() ==> #[trigger] widths@[i] <= 16,
            bits.wf(),
            bits.same_source(old(bits)),
            alternating_values(
                bits.front(),
                bits.back(),
                widths@,
                bits.front_at(),
                bits.back_at(),
                values@,
            ) == alternating_values(old(bits).front(), old(bits).back(), widths@, 0, 0, seq![]),
        decreases widths@.len() - values@.len(),
    {
        let width: u32 = widths[values.len()] as u32;
        proof {
            lemma2_to64();
            if width < 16 {
                lemma_pow2_strictly_increases(width as nat, 16);
            }
        }
        let value: u32 = if values.len() % 2 == 0 {
            bits.read_front(width)?
        } else {
            bits.read_back(width)?
        };
        values.push(value as usize);
    }
    Ok(values)
}

fn pick_pieces(
    sources: &[Vec<u8>],
    indexes: &[u8],
    lengths: &[usize],
    combined: bool,
    destination_count: usize,
    decoded_size: usize,
) -> (result: Option<Vec<u8>>)
    ensures
        match pick(
            views(sources@),
            indexes@,
            lengths@,
            combined,
            destination_count as nat,
            0,
            0,
            Seq::new(sources@.len(), |i: int| 0usize),
            seq![],
            decoded_size as nat,
        ) {
            None => result is None,
            Some(out) => result matches Some(r) && r@ == out,
        },
{
    let mut positions: Vec<usize> = Vec::new();
    while positions.len() < sources.len()
        invariant
            positions@.len() <= sources@.len(),
            forall|i: int| 0 <= i < positions@.len() ==> positions@[i] == 0,
        decreases sources@.len() - positions@.len(),
    {
        positions.push(0);
    }
    assert(positions@ =~= Seq::new(sources@.len(), |i: int| 0usize));
    let ghost all = views(sources@);
    let ghost whole = pick(
        all,
        indexes@,
        lengths@,
        combined,
        destination_count as nat,
        0,
        0,
        positions@,
        seq![],
        decoded_size as nat,
    );
    let mut output: Vec<u8> = Vec::new();
    let mut i: usize = 0;
    let mut k: usize = 0;
    let mut left: usize = destination_count;
    while left > 0
        invariant
            i <= indexes@.len(),
            k <= i,
            all == views(sources@),
            positions@.len() == sources@.len(),
            forall|s: int|
                0 <= s < sources@.len() ==> #[trigger] positions@[s] <= sources@[s]@.len(),
            output@.len() <= decoded_size,
            whole == pick(
                all,
                indexes@,
                lengths@,
                combined,
                destination_count as nat,
                0,
                0,
                Seq::new(sources@.len(), |i: int| 0usize),
                seq![],
                decoded_size as nat,
            ),
            whole == pick(
                all,
                indexes@,
                lengths@,
                combined,
                left as nat,
                i as nat,
                k as nat,
                positions@,
                output@,
                decoded_size as nat,
            ),
        decreases left + indexes@.len() - i,
    {
        if i >= indexes.len() {
            return None;
        }
        let index: u8 = indexes[i];
        if index == 0 {
            if combined {
                k = k + 1;
            }
            left = left - 1;
        } else {
            let s: usize = index as usize - 1;
            if s >= sources.len() || k >= lengths.len() {
                return None;
            }
            assert(all[s as int] == sources@[s as int]@);
            let length: usize = lengths[k];
            let start: usize = positions[s];
            assert(positions@[s as int] <= sources@[s as int]@.len());
            if length > sources[s].len() - start || length > decoded_size - output.len() {
                return None;
            }
            append(&mut output, part(&sources[s], start, start + length));
            positions.set(s, start + length);
            k = k + 1;
        }
        i = i + 1;
    }
    if i != indexes.len() || k != lengths.len() || output.len() != decoded_size {
        return None;
    }
    let mut s: usize = 0;
    while s < sources.len()
        invariant
            s <= sources@.len(),
            all == views(sources@),
            positions@.len() == sources@.len(),
            forall|j: int| 0 <= j < s ==> positions@[j] == #[trigger] all[j].len(),
            i == indexes@.len(),
            k == lengths@.len(),
            output@.len() == decoded_size,
            whole == pick(
                all,
                indexes@,
                lengths@,
                combined,
                0,
                i as nat,
                k as nat,
                positions@,
                output@,
                decoded_size as nat,
            ),
            whole == pick(
                all,
                indexes@,
                lengths@,
                combined,
                destination_count as nat,
                0,
                0,
                Seq::new(sources@.len(), |i: int| 0usize),
                seq![],
                decoded_size as nat,
            ),
        decreases sources@.len() - s,
    {
        assert(all[s as int] == sources@[s as int]@);
        if positions[s] != sources[s].len() {
            assert(positions@[s as int] != all[s as int].len());
            return None;
        }
        s = s + 1;
    }
    Some(output)
}

fn decode_picked(
    cursor: &mut Cursor<'_>,
    sources: &[Vec<u8>],
    indexes: &[u8],
    widths: &[u8],
    control: u16,
    destination_count: usize,
    decoded_size: usize,
    offset: usize,
) -> (result: Result<Vec<u8>, KrakenError>)
    requires
        old(cursor).wf(),
        forall|i: int| 0 <= i < widths@.len() ==> #[trigger] widths@[i] <= 16,
    ensures
        final(cursor).wf(),
        final(cursor).same_source(old(cursor)),
        match picked(
            old(cursor).bytes(),
            old(cursor).at(),
            old(cursor).base(),
            offset,
            views(sources@),
            indexes@,
            widths@,
            control as nat,
            destination_count as nat,
            decoded_size as nat,
        ) {
            Ok(out) => result matches Ok(r) && r@ == out && final(cursor).at()
                == old(cursor).bytes().len(),
            Err(error) => result == Err::<Vec<u8>, KrakenError>(error),
        },
{
    proof {
        cursor.lemma_bound();
    }
    if indexes.len() == 0 || indexes[indexes.len() - 1] != 0 {
        return Err(KrakenError::InvalidArray { offset });
    }
    let bit_bytes: usize = (control % 0x4000) as usize;
    let bit_offset: usize = cursor.absolute_offset();
    let region: &[u8] = cursor.take(bit_bytes)?;
    if !cursor.is_empty() {
        return Err(KrakenError::InvalidArray { offset: cursor.absolute_offset() });
    }
    let mut bits = PairedBits::new(region, bit_offset);
    let lengths: Vec<usize> = read_alternating(&mut bits, widths)?;
    match bits.require_no_unread_bytes() {
        Ok(()) => {},
        Err(_) => return Err(KrakenError::InvalidArray { offset }),
    }
    match pick_pieces(
        sources,
        indexes,
        &lengths,
        control >= 0x8000,
        destination_count,
        decoded_size,
    ) {
        Some(output) => Ok(output),
        None => Err(KrakenError::InvalidArray { offset }),
    }
}

fn widths_too_large(widths: &[u8]) -> (result: bool)
    ensures
        result == exists|i: int| 0 <= i < widths@.len() && #[trigger] widths@[i] > 16,
{
    let mut i: usize = 0;
    while i < widths.len()
        invariant
            i <= widths@.len(),
            forall|k: int| 0 <= k < i ==> #[trigger] widths@[k] <= 16,
        decreases widths@.len() - i,
    {
        if widths[i] > 16 {
            assert(widths@[i as int] > 16);
            return true;
        }
        i = i + 1;
    }
    false
}

/// Decodes an array that is picked together from pieces of others. It takes all
/// that the cursor has left.
pub fn decode_multi_array(
    cursor: &mut Cursor<'_>,
    source_count: usize,
    destination_count: usize,
    decoded_size: usize,
    offset: usize,
    depth: usize,
) -> (result: Result<Vec<u8>, KrakenError>)
    requires
        old(cursor).wf(),
    ensures
        final(cursor).wf(),
        final(cursor).same_source(old(cursor)),
        match indexed(
            old(cursor).bytes(),
            old(cursor).at(),
            old(cursor).base(),
            offset,
            source_count as nat,
            destination_count as nat,
            decoded_size as nat,
            depth as nat,
        ) {
            Ok(out) => result matches Ok(r) && r@ == out && final(cursor).at()
                == old(cursor).bytes().len(),
            Err(error) => result == Err::<Vec<u8>, KrakenError>(error),
        },
    decreases 20 - depth, 2nat, 0nat,
{
    reveal(array);
    if source_count == 0 {
        let output: Vec<u8> = decode_array(cursor, Some(decoded_size), depth)?;
        if !cursor.is_empty() {
            return Err(KrakenError::InvalidArray { offset: cursor.absolute_offset() });
        }
        return Ok(output);
    }
    let sources: Vec<Vec<u8>> = decode_sources(cursor, source_count, depth)?;
    let control: u16 = cursor.read_le16()?;
    let indexes: Vec<u8> = decode_array(cursor, None, depth)?;
    if indexes.len() < destination_count {
        return Err(KrakenError::InvalidArray { offset });
    }
    if control >= 0x8000 {
        let (low, high) = split_nibbles(&indexes);
        return decode_picked(
            cursor,
            &sources,
            &low,
            &high,
            control,
            destination_count,
            decoded_size,
            offset,
        );
    }
    let widths: Vec<u8> = decode_array(cursor, Some(indexes.len() - destination_count), depth)?;
    if widths_too_large(&widths) {
        return Err(KrakenError::InvalidArray { offset });
    }
    decode_picked(
        cursor,
        &sources,
        &indexes,
        &widths,
        control,
        destination_count,
        decoded_size,
        offset,
    )
}

} // verus!
