//! Blocks, quantums and chunks of a stream.

use super::arrays;
use super::arrays::decode_array;
use super::bits;
use super::cursor;
use super::cursor::Cursor;
use super::huffman;
use super::lz;
use super::lz::decode_lz_payload;
use super::tans;
use super::KrakenError;
use crate::sequence;
use crate::sequence::{append, append_repeated, part};
use vstd::prelude::*;

verus! {

/// How many bytes a block holds.
pub const BLOCK_SIZE: usize = 0x4_0000;

/// How many bytes a chunk of a block holds.
pub const CHUNK_SIZE: usize = 0x2_0000;

/// The header of a block of plain bytes.
pub const RAW_BLOCK_HEADER: [u8; 2] = [0xcc, 0x06];

/// The header of a block that holds a quantum.
pub const COMPRESSED_BLOCK_HEADER: [u8; 2] = [0x8c, 0x06];

/// The quantum header of a block that repeats one byte.
pub const MEMSET_QUANTUM: [u8; 3] = [0x07, 0xff, 0xff];

/// The smaller of two sizes.
pub open spec fn least(a: nat, b: nat) -> nat {
    if a <= b {
        a
    } else {
        b
    }
}

pub fn least_of(a: usize, b: usize) -> (result: usize)
    ensures
        result == least(a as nat, b as nat),
{
    if a <= b {
        a
    } else {
        b
    }
}

// ---------------------------------------------------------------------------
// Quantums
// ---------------------------------------------------------------------------

/// The chunk at `at`, appended to `out`, and where it ends: an array, plain
/// bytes or an LZ chunk.
#[verifier::opaque]
pub open spec fn quantum_chunk(payload: Seq<u8>, at: nat, base: nat, out: Seq<u8>, size: nat) -> Result<
    (Seq<u8>, nat),
    KrakenError,
> {
    if at + 3 > payload.len() {
        Err(arrays::cut_off(base + at))
    } else {
        let header = cursor::be24(payload, at as int);
        if header < 0x80_0000 {
            match arrays::array(payload, at, base, Some(size as usize), 0) {
                Err(error) => Err(error),
                Ok((decoded, next)) => Ok((out + decoded, next)),
            }
        } else {
            let length = header % 0x8_0000;
            let mode = (header / 0x8_0000) % 16;
            let start = at + 3;
            if length > size || (length < size && mode > 1) || (length == size && mode != 0) {
                Err(lz::bad(base + at))
            } else if start + length > payload.len() {
                Err(arrays::cut_off(base + start))
            } else {
                let bytes = payload.subrange(start as int, (start + length) as int);
                if length == size {
                    Ok((out + bytes, start + length))
                } else {
                    match lz::lz_chunk(bytes, size, out, mode as u32, base + start) {
                        Err(error) => Err(error),
                        Ok(out) => Ok((out, start + length)),
                    }
                }
            }
        }
    }
}

pub proof fn lemma_quantum_chunk_advances(
    payload: Seq<u8>,
    at: nat,
    base: nat,
    out: Seq<u8>,
    size: nat,
)
    ensures
        quantum_chunk(payload, at, base, out, size) matches Ok((_, next)) ==> at < next
            <= payload.len(),
{
    reveal(arrays::array);
    reveal(quantum_chunk);
}

/// The chunks of a quantum from `at` on, until the output reaches `end`; they
/// must use up the payload.
pub open spec fn quantum_chunks(payload: Seq<u8>, at: nat, base: nat, out: Seq<u8>, end: nat) -> Result<
    Seq<u8>,
    KrakenError,
>
    decreases payload.len() - at,
{
    if out.len() >= end {
        if at == payload.len() {
            Ok(out)
        } else {
            Err(lz::bad(base + at))
        }
    } else {
        match quantum_chunk(
            payload,
            at,
            base,
            out,
            least((end - out.len()) as nat, CHUNK_SIZE as nat),
        ) {
            Err(error) => Err(error),
            Ok((next_out, next)) => {
                proof {
                    lemma_quantum_chunk_advances(
                        payload,
                        at,
                        base,
                        out,
                        least((end - out.len()) as nat, CHUNK_SIZE as nat),
                    );
                }
                quantum_chunks(payload, next, base, next_out, end)
            },
        }
    }
}

/// A quantum that decodes to `size` bytes after `out`.
pub open spec fn quantum(payload: Seq<u8>, size: nat, out: Seq<u8>, base: nat) -> Result<
    Seq<u8>,
    KrakenError,
> {
    if out.len() + size > usize::MAX {
        Err(lz::bad(base))
    } else {
        quantum_chunks(payload, 0, base, out, out.len() + size)
    }
}

/// Decodes the chunk at the cursor and appends it to the output.
fn decode_chunk(cursor: &mut Cursor<'_>, chunk_size: usize, output: &mut Vec<u8>) -> (result: Result<
    (),
    KrakenError,
>)
    requires
        old(cursor).wf(),
    ensures
        final(cursor).wf(),
        final(cursor).same_source(old(cursor)),
        match quantum_chunk(
            old(cursor).bytes(),
            old(cursor).at(),
            old(cursor).base(),
            old(output)@,
            chunk_size as nat,
        ) {
            Err(error) => result == Err::<(), KrakenError>(error),
            Ok((out, next)) => result == Ok::<(), KrakenError>(()) && final(output)@ == out
                && final(cursor).at() == next && out.len() == old(output)@.len() + chunk_size,
        },
        lz::grown(
            old(output)@,
            final(output)@,
            lz::chunk_bound(old(output)@, chunk_size as nat),
        ),
{
    reveal(quantum_chunk);
    assert(output@.is_prefix_of(output@));
    proof {
        cursor.lemma_bound();
    }
    let header: u32 = cursor.peek_be24()?;
    if header < 0x80_0000 {
        proof {
            lemma_array_size(cursor.bytes(), cursor.at(), cursor.base(), Some(chunk_size), 0);
        }
        let decoded: Vec<u8> = decode_array(cursor, Some(chunk_size), 0)?;
        append(output, &decoded);
        assert(old(output)@.is_prefix_of(output@));
        return Ok(());
    }
    let start: usize = cursor.absolute_offset();
    cursor.advance(3)?;
    let length: usize = (header % 0x8_0000) as usize;
    let mode: u32 = (header / 0x8_0000) % 16;
    if length > chunk_size || (length < chunk_size && mode > 1) || (length == chunk_size && mode
        != 0) {
        return Err(KrakenError::InvalidQuantum { offset: start });
    }
    let lz_offset: usize = cursor.absolute_offset();
    let bytes: &[u8] = cursor.take(length)?;
    if length == chunk_size {
        append(output, bytes);
        assert(old(output)@.is_prefix_of(output@));
        return Ok(());
    }
    decode_lz_payload(bytes, chunk_size, output, mode, lz_offset)
}

/// Decodes a quantum of `output_size` bytes and appends it to the output. Where
/// that fails, the output keeps what it held and may hold a part of the quantum
/// behind it.
pub fn decode_quantum(
    payload: &[u8],
    output_size: usize,
    output: &mut Vec<u8>,
    stream_offset: usize,
) -> (result: Result<(), KrakenError>)
    requires
        stream_offset + payload@.len() <= usize::MAX,
    ensures
        match quantum(payload@, output_size as nat, old(output)@, stream_offset as nat) {
            Err(error) => result == Err::<(), KrakenError>(error),
            Ok(out) => result == Ok::<(), KrakenError>(()) && final(output)@ == out && out.len()
                == old(output)@.len() + output_size,
        },
        lz::grown(
            old(output)@,
            final(output)@,
            lz::chunk_bound(old(output)@, output_size as nat),
        ),
{
    assert(output@.is_prefix_of(output@));
    if output_size > usize::MAX - output.len() {
        return Err(KrakenError::InvalidQuantum { offset: stream_offset });
    }
    let output_end: usize = output.len() + output_size;
    let mut cursor = Cursor::new(payload, stream_offset);
    while output.len() < output_end
        invariant
            cursor.wf(),
            cursor.bytes() == payload@,
            cursor.base() == stream_offset,
            output_end == old(output)@.len() + output_size,
            old(output)@.is_prefix_of(output@),
            output@.len() <= output_end,
            quantum_chunks(
                payload@,
                cursor.at(),
                stream_offset as nat,
                output@,
                output_end as nat,
            ) == quantum(payload@, output_size as nat, old(output)@, stream_offset as nat),
        decreases payload@.len() - cursor.at(),
    {
        let chunk_size: usize = least_of(output_end - output.len(), CHUNK_SIZE);
        proof {
            lemma_quantum_chunk_advances(
                payload@,
                cursor.at(),
                stream_offset as nat,
                output@,
                chunk_size as nat,
            );
        }
        let ghost before = output@;
        let decoded: Result<(), KrakenError> = decode_chunk(&mut cursor, chunk_size, output);
        proof {
            lz::lemma_grown(
                old(output)@,
                before,
                output@,
                lz::chunk_bound(old(output)@, output_size as nat),
            );
        }
        decoded?;
    }
    if !cursor.is_empty() {
        return Err(KrakenError::InvalidQuantum { offset: cursor.absolute_offset() });
    }
    Ok(())
}

// ---------------------------------------------------------------------------
// Blocks
// ---------------------------------------------------------------------------

/// The first two bytes announce a block.
pub open spec fn block_header_ok(input: Seq<u8>, at: nat) -> bool {
    &&& input[at as int + 1] % 128 == 6
    &&& input[at as int] % 64 == 0x0c
}

/// The block of `size` bytes at `at`, appended to `out`, and where it ends.
#[verifier::opaque]
pub open spec fn block(input: Seq<u8>, at: nat, out: Seq<u8>, size: nat) -> Result<
    (Seq<u8>, nat),
    KrakenError,
> {
    if at + 2 > input.len() {
        Err(arrays::cut_off(at))
    } else if !block_header_ok(input, at) {
        Err(KrakenError::InvalidHeader { offset: at as usize })
    } else if input[at as int] == 0x4c || input[at as int] == 0xcc {
        if at + 2 + size > input.len() {
            Err(arrays::cut_off(at + 2))
        } else {
            Ok((out + input.subrange(at as int + 2, (at + 2 + size) as int), at + 2 + size))
        }
    } else {
        quantum_block(input, at + 2, out, size, input[at as int + 1] >= 0x80)
    }
}

/// A block whose quantum header stands at `at`.
pub open spec fn quantum_block(input: Seq<u8>, at: nat, out: Seq<u8>, size: nat, checked: bool) -> Result<
    (Seq<u8>, nat),
    KrakenError,
> {
    if at + 3 > input.len() {
        Err(arrays::cut_off(at))
    } else {
        let header = cursor::be24(input, at as int);
        let length = header % 0x4_0000 + 1;
        if header == 0x7_ffff {
            if checked {
                Err(lz::bad(at))
            } else if at + 3 >= input.len() {
                Err(arrays::cut_off(at + 3))
            } else {
                Ok((out + sequence::repeated(input[at as int + 3], size), at + 4))
            }
        } else if header % 0x4_0000 == 0x3_ffff || header >= 0x10_0000 || length > size {
            Err(KrakenError::UnsupportedQuantum { offset: at as usize })
        } else {
            let start: nat = if checked {
                at + 6
            } else {
                at + 3
            };
            if start > input.len() {
                Err(arrays::cut_off(input.len()))
            } else if start + length > input.len() {
                Err(arrays::cut_off(start))
            } else {
                let payload = input.subrange(start as int, (start + length) as int);
                if length == size {
                    Ok((out + payload, start + length))
                } else {
                    match quantum(payload, size, out, start) {
                        Err(error) => Err(error),
                        Ok(out) => Ok((out, start + length)),
                    }
                }
            }
        }
    }
}

pub proof fn lemma_block_advances(input: Seq<u8>, at: nat, out: Seq<u8>, size: nat)
    ensures
        block(input, at, out, size) matches Ok((_, next)) ==> at < next <= input.len(),
{
    reveal(block);
}

/// The blocks from `at` on, until there are `size` bytes of output; they must
/// use up the input.
pub open spec fn blocks(input: Seq<u8>, at: nat, out: Seq<u8>, size: nat) -> Result<
    Seq<u8>,
    KrakenError,
>
    decreases input.len() - at,
{
    if out.len() >= size {
        if at == input.len() {
            Ok(out)
        } else {
            Err(KrakenError::TrailingData { offset: at as usize })
        }
    } else {
        match block(input, at, out, least((size - out.len()) as nat, BLOCK_SIZE as nat)) {
            Err(error) => Err(error),
            Ok((next_out, next)) => {
                proof {
                    lemma_block_advances(
                        input,
                        at,
                        out,
                        least((size - out.len()) as nat, BLOCK_SIZE as nat),
                    );
                }
                blocks(input, next, next_out, size)
            },
        }
    }
}

/// What a stream decodes to, given the size of that.
pub open spec fn decoded(input: Seq<u8>, size: nat) -> Result<Seq<u8>, KrakenError> {
    blocks(input, 0, seq![], size)
}

/// Decodes a block of `block_size` bytes, appends it to the output and gives
/// its end.
fn decode_block(input: &[u8], at: usize, block_size: usize, output: &mut Vec<u8>) -> (result: Result<
    usize,
    KrakenError,
>)
    requires
        at <= input@.len(),
        old(output)@.len() + block_size <= usize::MAX,
    ensures
        match block(input@, at as nat, old(output)@, block_size as nat) {
            Err(error) => result == Err::<usize, KrakenError>(error),
            Ok((out, next)) => (result matches Ok(r) && r == next) && next <= input@.len()
                && final(output)@ == out,
        },
{
    reveal(block);
    if input.len() - at < 2 {
        return Err(KrakenError::Truncated { offset: at });
    }
    let first: u8 = input[at];
    let second: u8 = input[at + 1];
    if second % 128 != 6 || first % 64 != 0x0c {
        return Err(KrakenError::InvalidHeader { offset: at });
    }
    if first == 0x4c || first == 0xcc {
        if input.len() - at - 2 < block_size {
            return Err(KrakenError::Truncated { offset: at + 2 });
        }
        append(output, part(input, at + 2, at + 2 + block_size));
        return Ok(at + 2 + block_size);
    }
    let checked: bool = second >= 0x80;
    let at: usize = at + 2;
    if input.len() - at < 3 {
        return Err(KrakenError::Truncated { offset: at });
    }
    let header: usize = input[at] as usize * 0x10000 + input[at + 1] as usize * 256 + input[at
        + 2] as usize;
    if header == 0x7_ffff {
        if checked {
            return Err(KrakenError::InvalidQuantum { offset: at });
        }
        if at + 3 >= input.len() {
            return Err(KrakenError::Truncated { offset: at + 3 });
        }
        append_repeated(output, input[at + 3], block_size);
        return Ok(at + 4);
    }
    let length: usize = header % 0x4_0000 + 1;
    if header % 0x4_0000 == 0x3_ffff || header >= 0x10_0000 || length > block_size {
        return Err(KrakenError::UnsupportedQuantum { offset: at });
    }
    if checked && input.len() - at < 6 {
        return Err(KrakenError::Truncated { offset: input.len() });
    }
    let start: usize = if checked {
        at + 6
    } else {
        at + 3
    };
    if input.len() - start < length {
        return Err(KrakenError::Truncated { offset: start });
    }
    let payload: &[u8] = part(input, start, start + length);
    if length == block_size {
        append(output, payload);
    } else {
        decode_quantum(payload, block_size, output, start)?;
    }
    Ok(start + length)
}

/// Decodes a stream.
///
/// `decoded_size` is authoritative because the headers of plain blocks do not
/// carry their size. Fails on truncated input, invalid headers, trailing bytes
/// and quantums that break the grammar or are not supported.
pub fn decode(input: &[u8], decoded_size: usize) -> (result: Result<Vec<u8>, KrakenError>)
    ensures
        match decoded(input@, decoded_size as nat) {
            Ok(out) => result matches Ok(r) && r@ == out && r@.len() == decoded_size,
            Err(error) => result == Err::<Vec<u8>, KrakenError>(error),
        },
{
    let mut at: usize = 0;
    let mut output: Vec<u8> = Vec::new();
    while output.len() < decoded_size
        invariant
            at <= input@.len(),
            output@.len() <= decoded_size,
            blocks(input@, at as nat, output@, decoded_size as nat) == decoded(
                input@,
                decoded_size as nat,
            ),
        decreases input@.len() - at,
    {
        let block_size: usize = least_of(decoded_size - output.len(), BLOCK_SIZE);
        proof {
            lemma_block_advances(input@, at as nat, output@, block_size as nat);
            lemma_block_size(input@, at as nat, output@, block_size as nat);
        }
        at = decode_block(input, at, block_size, &mut output)?;
    }
    if at != input.len() {
        return Err(KrakenError::TrailingData { offset: at });
    }
    Ok(output)
}

// ---------------------------------------------------------------------------
// Sizes
// ---------------------------------------------------------------------------

proof fn lemma_huffman_symbols_size(
    entries: Seq<(u16, u8, u8)>,
    streams: (Seq<bool>, Seq<bool>, Seq<bool>),
    out: Seq<u8>,
    at: (nat, nat, nat),
    size: nat,
    offset: usize,
)
    requires
        out.len() <= size,
    ensures
        huffman::huffman_symbols(entries, streams, out, at, size, offset) matches Ok((result, _))
            ==> result.len() == size,
    decreases size - out.len(),
{
    if out.len() < size {
        if out.len() % 3 == 0 {
            match huffman::huffman_symbol(entries, streams.0, at.0, 0, offset) {
                Err(_) => {},
                Ok((symbol, next)) => lemma_huffman_symbols_size(
                    entries,
                    streams,
                    out.push(symbol),
                    (next, at.1, at.2),
                    size,
                    offset,
                ),
            }
        } else if out.len() % 3 == 1 {
            match huffman::huffman_symbol(entries, streams.1, at.1, 0, offset) {
                Err(_) => {},
                Ok((symbol, next)) => lemma_huffman_symbols_size(
                    entries,
                    streams,
                    out.push(symbol),
                    (at.0, next, at.2),
                    size,
                    offset,
                ),
            }
        } else {
            match huffman::huffman_symbol(entries, streams.2, at.2, 0, offset) {
                Err(_) => {},
                Ok((symbol, next)) => lemma_huffman_symbols_size(
                    entries,
                    streams,
                    out.push(symbol),
                    (at.0, at.1, next),
                    size,
                    offset,
                ),
            }
        }
    }
}

proof fn lemma_huffman_group_size(
    entries: Seq<(u16, u8, u8)>,
    payload: Seq<u8>,
    size: nat,
    offset: usize,
)
    ensures
        huffman::huffman_group(entries, payload, size, offset) matches Ok(out) ==> out.len() == size,
{
    if payload.len() >= 2 {
        let first_len = cursor::le16(payload, 0);
        let streams = payload.subrange(2, payload.len() as int);
        if first_len <= streams.len() {
            let first = streams.subrange(0, first_len as int);
            let opposing = streams.subrange(first_len as int, streams.len() as int);
            lemma_huffman_symbols_size(
                entries,
                (
                    bits::lsb_bits(first),
                    bits::lsb_bits(opposing.reverse()),
                    bits::lsb_bits(opposing),
                ),
                seq![],
                (0, 0, 0),
                size,
                offset,
            );
        }
    }
}

proof fn lemma_tans_symbols_size(
    table: Seq<tans::TansEntry>,
    front: Seq<bool>,
    back: Seq<bool>,
    out: Seq<u8>,
    states: Seq<usize>,
    front_at: nat,
    back_at: nat,
    size: nat,
)
    requires
        out.len() <= size,
        states.len() == 5,
    ensures
        tans::tans_symbols(table, front, back, out, states, front_at, back_at, size) matches Some(
            (result, last, _, _),
        ) ==> result.len() == size && last.len() == states.len(),
    decreases size - out.len(),
{
    if out.len() < size {
        let turn = (out.len() % 5) as int;
        let state = states[turn];
        if state < table.len() {
            let entry = table[state as int];
            if out.len() % 10 >= 5 {
                match super::readers::tans_read(back, back_at, front_at, entry.bits as nat) {
                    None => {},
                    Some((value, next)) => lemma_tans_symbols_size(
                        table,
                        front,
                        back,
                        out.push(entry.symbol),
                        states.update(turn, (entry.base + value) as usize),
                        front_at,
                        next,
                        size,
                    ),
                }
            } else {
                match super::readers::tans_read(front, front_at, back_at, entry.bits as nat) {
                    None => {},
                    Some((value, next)) => lemma_tans_symbols_size(
                        table,
                        front,
                        back,
                        out.push(entry.symbol),
                        states.update(turn, (entry.base + value) as usize),
                        next,
                        back_at,
                        size,
                    ),
                }
            }
        }
    }
}

proof fn lemma_tans_stream_size(
    table: Seq<tans::TansEntry>,
    table_bits: nat,
    stream: Seq<u8>,
    size: nat,
)
    requires
        size >= 5,
    ensures
        tans::tans_stream(table, table_bits, stream, size) matches Some(out) ==> out.len() == size,
{
    let front = bits::lsb_bits(stream);
    let back = bits::lsb_bits(stream.reverse());
    match tans::first_states(front, back, table_bits) {
        None => {},
        Some(states) => lemma_tans_symbols_size(
            table,
            front,
            back,
            seq![],
            states,
            3 * table_bits,
            2 * table_bits,
            (size - 5) as nat,
        ),
    }
}

proof fn lemma_tans_payload_size(payload: Seq<u8>, size: nat)
    ensures
        tans::tans_payload(payload, size) matches Some(out) ==> out.len() == size,
{
    let header = bits::msb_bits(payload);
    if payload.len() >= 8 && size >= 5 {
        match super::readers::read_bits(header, 0, 3) {
            None => {},
            Some((kind, at)) => match tans::tans_weights(header, at, kind + 8) {
                None => {},
                Some((weights, at)) => match tans::tans_table(weights, kind + 8) {
                    None => {},
                    Some(table) => lemma_tans_stream_size(
                        table,
                        kind + 8,
                        payload.subrange(bits::bytes_for(at) as int, payload.len() as int),
                        size,
                    ),
                },
            },
        }
    }
}

proof fn lemma_rle_run_size(
    commands: Seq<u8>,
    front: nat,
    back: nat,
    byte: u8,
    out: Seq<u8>,
    size: nat,
)
    ensures
        arrays::rle_run(commands, front, back, byte, out, size) matches Some(result)
            ==> result.len() == size,
    decreases back - front,
{
    if front < back {
        if commands[back - 1] == 1 {
            if front < back - 1 {
                lemma_rle_run_size(
                    commands,
                    front + 1,
                    (back - 1) as nat,
                    commands[front as int],
                    out,
                    size,
                );
            }
        } else {
            match arrays::rle_counts(commands, front, back) {
                None => {},
                Some((literals, run, next)) => if front + literals <= next {
                    lemma_rle_run_size(
                        commands,
                        front + literals,
                        next,
                        byte,
                        out + commands.subrange(front as int, (front + literals) as int)
                            + sequence::repeated(byte, run),
                        size,
                    );
                },
            }
        }
    }
}

proof fn lemma_pick_size(
    sources: Seq<Seq<u8>>,
    indexes: Seq<u8>,
    lengths: Seq<usize>,
    combined: bool,
    destinations: nat,
    i: nat,
    k: nat,
    positions: Seq<usize>,
    out: Seq<u8>,
    size: nat,
)
    ensures
        arrays::pick(
            sources,
            indexes,
            lengths,
            combined,
            destinations,
            i,
            k,
            positions,
            out,
            size,
        ) matches Some(result) ==> result.len() == size,
    decreases indexes.len() - i,
{
    if destinations > 0 && i < indexes.len() {
        if indexes[i as int] == 0 {
            lemma_pick_size(
                sources,
                indexes,
                lengths,
                combined,
                (destinations - 1) as nat,
                i + 1,
                if combined {
                    k + 1
                } else {
                    k
                },
                positions,
                out,
                size,
            );
        } else {
            let s = indexes[i as int] - 1;
            if s < sources.len() && k < lengths.len() {
                let start = positions[s] as int;
                let end = start + lengths[k as int];
                lemma_pick_size(
                    sources,
                    indexes,
                    lengths,
                    combined,
                    destinations,
                    i + 1,
                    k + 1,
                    positions.update(s, end as usize),
                    out + sources[s].subrange(start, end),
                    size,
                );
            }
        }
    }
}

proof fn lemma_picked_size(
    bytes: Seq<u8>,
    at: nat,
    base: nat,
    offset: usize,
    sources: Seq<Seq<u8>>,
    indexes: Seq<u8>,
    widths: Seq<u8>,
    control: nat,
    destinations: nat,
    size: nat,
)
    ensures
        arrays::picked(
            bytes,
            at,
            base,
            offset,
            sources,
            indexes,
            widths,
            control,
            destinations,
            size,
        ) matches Ok(out) ==> out.len() == size,
{
    let bit_bytes = control % 0x4000;
    let region = bytes.subrange(at as int, (at + bit_bytes) as int);
    match arrays::alternating_values(
        bits::msb_bits(region),
        bits::msb_bits(region.reverse()),
        widths,
        0,
        0,
        seq![],
    ) {
        None => {},
        Some((lengths, front_at, back_at)) => lemma_pick_size(
            sources,
            indexes,
            lengths,
            control >= 0x8000,
            destinations,
            0,
            0,
            Seq::new(sources.len(), |i: int| 0usize),
            seq![],
            size,
        ),
    }
}

proof fn lemma_indexed_size(
    bytes: Seq<u8>,
    at: nat,
    base: nat,
    offset: usize,
    source_count: nat,
    destinations: nat,
    size: nat,
    depth: nat,
)
    requires
        size <= usize::MAX,
    ensures
        arrays::indexed(
            bytes,
            at,
            base,
            offset,
            source_count,
            destinations,
            size,
            depth,
        ) matches Ok(out) ==> out.len() == size,
    decreases 20 - depth, 1nat,
{
    reveal(arrays::array);
    if source_count == 0 {
        lemma_array_size(bytes, at, base, Some(size as usize), depth);
    } else {
        match arrays::listed(bytes, at, base, source_count, depth, seq![]) {
            Err(_) => {},
            Ok((sources, at)) => if at + 2 <= bytes.len() {
                let control = cursor::le16(bytes, at as int);
                match arrays::array(bytes, at + 2, base, None, depth) {
                    Err(_) => {},
                    Ok((indexes, at)) => if indexes.len() < destinations {
                    } else if control >= 0x8000 {
                        lemma_picked_size(
                            bytes,
                            at,
                            base,
                            offset,
                            sources,
                            arrays::low_nibbles(indexes),
                            arrays::high_nibbles(indexes),
                            control,
                            destinations,
                            size,
                        );
                    } else {
                        match arrays::array(
                            bytes,
                            at,
                            base,
                            Some((indexes.len() - destinations) as usize),
                            depth,
                        ) {
                            Err(_) => {},
                            Ok((widths, at)) => lemma_picked_size(
                                bytes,
                                at,
                                base,
                                offset,
                                sources,
                                indexes,
                                widths,
                                control,
                                destinations,
                                size,
                            ),
                        }
                    },
                }
            },
        }
    }
}

/// An array that must have a size has it.
pub proof fn lemma_array_size(
    bytes: Seq<u8>,
    at: nat,
    base: nat,
    required: Option<usize>,
    depth: nat,
)
    ensures
        required is Some ==> (arrays::array(bytes, at, base, required, depth) matches Ok((out, _))
            ==> out.len() == required->0),
    decreases 20 - depth, 0nat,
{
    reveal(arrays::array);
    if depth < arrays::MAX_ARRAY_RECURSION && at < bytes.len() {
        let kind = (bytes[at as int] / 16) % 8;
        match arrays::coded_header(bytes, at, base) {
            Err(_) => {},
            Ok((compressed, decoded, next)) => {
                if 0 < kind && next + compressed <= bytes.len() {
                    let payload = bytes.subrange(next as int, (next + compressed) as int);
                    let offset = (base + next) as usize;
                    lemma_tans_payload_size(payload, decoded);
                    match super::tables::huffman_table(payload) {
                        None => {},
                        Some((entries, start)) => {
                            lemma_huffman_group_size(
                                entries,
                                payload.subrange(start as int, payload.len() as int),
                                decoded,
                                (offset + start) as usize,
                            );
                            let s = start as int;
                            let first_size = payload[s] + 256 * payload[s + 1] + 0x10000
                                * payload[s + 2];
                            let groups = payload.subrange(s + 3, payload.len() as int);
                            let first_decoded = (decoded + 1) / 2;
                            lemma_huffman_group_size(
                                entries,
                                groups.subrange(0, first_size),
                                first_decoded,
                                (offset + start + 3) as usize,
                            );
                            lemma_huffman_group_size(
                                entries,
                                groups.subrange(first_size, groups.len() as int),
                                (decoded - first_decoded) as nat,
                                (offset + start + 3 + first_size) as usize,
                            );
                        },
                    }
                    if kind == 3 {
                        lemma_rle_size(payload, decoded, offset, depth + 1);
                    } else if kind == 5 {
                        if payload.len() > 0 && payload[0] >= 0x80 {
                            lemma_indexed_size(
                                payload,
                                1,
                                offset as nat,
                                offset,
                                (payload[0] % 64) as nat,
                                1,
                                decoded,
                                depth + 1,
                            );
                        }
                    }
                }
            },
        }
    }
}

proof fn lemma_rle_size(payload: Seq<u8>, size: nat, offset: usize, depth: nat)
    ensures
        arrays::rle(payload, size, offset, depth) matches Ok(out) ==> out.len() == size,
{
    reveal(arrays::array);
    if payload.len() > 1 {
        if payload[0] == 0 {
            let commands = payload.subrange(1, payload.len() as int);
            lemma_rle_run_size(commands, 0, commands.len(), 0, seq![], size);
        } else {
            match arrays::array(payload, 0, offset as nat, None, depth) {
                Err(_) => {},
                Ok((decoded, next)) => {
                    let commands = decoded + payload.subrange(next as int, payload.len() as int);
                    lemma_rle_run_size(commands, 0, commands.len(), 0, seq![], size);
                },
            }
        }
    }
}

proof fn lemma_quantum_chunks_size(payload: Seq<u8>, at: nat, base: nat, out: Seq<u8>, end: nat)
    requires
        out.len() <= end,
    ensures
        quantum_chunks(payload, at, base, out, end) matches Ok(result) ==> result.len() == end,
    decreases payload.len() - at,
{
    reveal(quantum_chunk);
    reveal(lz::lz_chunk);
    if out.len() < end {
        let size = least((end - out.len()) as nat, CHUNK_SIZE as nat);
        match quantum_chunk(payload, at, base, out, size) {
            Err(_) => {},
            Ok((next_out, next)) => {
                lemma_quantum_chunk_advances(payload, at, base, out, size);
                lemma_array_size(payload, at, base, Some(size as usize), 0);
                lemma_quantum_chunks_size(payload, next, base, next_out, end);
            },
        }
    }
}

/// A block has the size that is asked for.
pub proof fn lemma_block_size(input: Seq<u8>, at: nat, out: Seq<u8>, size: nat)
    ensures
        block(input, at, out, size) matches Ok((result, _)) ==> result.len() == out.len() + size,
{
    reveal(block);
    if at + 5 <= input.len() {
        let checked = input[at as int + 1] >= 0x80;
        let start: nat = if checked {
            at + 8
        } else {
            at + 5
        };
        let length = cursor::be24(input, at as int + 2) % 0x4_0000 + 1;
        if start + length <= input.len() {
            let payload = input.subrange(start as int, (start + length) as int);
            lemma_quantum_chunks_size(payload, 0, start, out, out.len() + size);
        }
    }
}

} // verus!
