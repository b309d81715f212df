//! Writing Kraken streams.

use super::bits;
use super::decoder;
use super::decoder::{least_of, BLOCK_SIZE, CHUNK_SIZE};
use super::huffman_encoder;
use super::huffman_encoder::encode_huffman_array;
use super::lz_encoder;
use super::lz_encoder::{encode_greedy_lz_chunk, encode_stable_distance_lz_chunk, encode_stored_array, write_be24};
use super::stream_laws;
use super::tans_encoder;
use super::tans_encoder::encode_tans_array;
use super::writers;
use super::writers::MsbBits;
use crate::sequence::{append, part};
use vstd::prelude::*;

verus! {

// ---------------------------------------------------------------------------
// Chunks
// ---------------------------------------------------------------------------

/// How a stream is written.
#[derive(Clone, Copy)]
pub enum Coding {
    /// LZ chunks with every match that is found.
    Greedy,
    /// Entropy-coded arrays.
    Entropy,
    /// LZ chunks of bytes that repeat every eight bytes.
    PeriodEight,
    /// Repeated bytes and plain bytes.
    Plain,
}

/// The smaller of the two coded arrays.
#[verifier::opaque]
pub open spec fn entropy_array(input: Seq<u8>) -> Option<Seq<u8>> {
    match (huffman_encoder::huffman_array(input), tans_encoder::tans_array(input)) {
        (Some(huffman), Some(tans)) => if tans.len() < huffman.len() {
            Some(tans)
        } else {
            Some(huffman)
        },
        (Some(huffman), None) => Some(huffman),
        (None, tans) => tans,
    }
}

/// A chunk of plain bytes.
pub open spec fn plain_unit(chunk: Seq<u8>) -> Seq<u8> {
    lz_encoder::be24_bytes(0x80_0000 + chunk.len()) + chunk
}

/// A chunk with matches.
pub open spec fn lz_unit(lz: Seq<u8>) -> Seq<u8> {
    lz_encoder::be24_bytes(0x88_0000 + lz.len()) + lz
}

/// How long a chunk must be to be written as one match at distance eight.
pub open spec fn period_minimum(first: bool) -> nat {
    if first {
        288
    } else {
        280
    }
}

/// How long that match is.
pub open spec fn period_match(chunk: Seq<u8>, first: bool) -> nat {
    (chunk.len() - 8 - lz_encoder::history_len(first)) as nat
}

/// The bytes of a chunk that is one match at distance eight and eight literals.
pub open spec fn period_chunk(chunk: Seq<u8>, first: bool) -> Seq<u8> {
    chunk.subrange(0, lz_encoder::history_len(first) as int) + lz_encoder::stored(
        chunk.subrange(chunk.len() - 8, chunk.len() as int),
    ) + lz_encoder::stored(seq![0x7cu8]) + lz_encoder::stored(seq![]) + lz_encoder::stored(
        seq![0xffu8],
    ) + bits::msb_pack(writers::extended_bits((period_match(chunk, first) - 272) as nat)) + seq![
        0x40u8,
    ]
}

/// How a chunk is written; `first` says that it starts the stream.
#[verifier::opaque]
pub open spec fn unit(coding: Coding, chunk: Seq<u8>, first: bool) -> Option<Seq<u8>> {
    match coding {
        Coding::Greedy => match lz_encoder::stable_chunk(chunk, first) {
            Some(lz) => Some(lz_unit(lz)),
            None => match lz_encoder::greedy_chunk(chunk, first) {
                Some(lz) => Some(lz_unit(lz)),
                None => Some(plain_unit(chunk)),
            },
        },
        Coding::Entropy => entropy_array(chunk),
        Coding::PeriodEight => if chunk.len() < period_minimum(first) {
            Some(plain_unit(chunk))
        } else {
            Some(lz_unit(period_chunk(chunk, first)))
        },
        Coding::Plain => Some(plain_unit(chunk)),
    }
}

/// The chunk of a block that starts at `at`.
pub open spec fn chunk_at(block: Seq<u8>, at: nat) -> Seq<u8> {
    block.subrange(at as int, at as int + decoder::least((block.len() - at) as nat, CHUNK_SIZE as nat))
}

/// The chunks of a block from `at` on.
pub open spec fn units(coding: Coding, block: Seq<u8>, first: bool, at: nat) -> Option<Seq<u8>>
    decreases block.len() - at,
{
    if at >= block.len() {
        Some(seq![])
    } else {
        let chunk = chunk_at(block, at);
        match unit(coding, chunk, first && at == 0) {
            None => None,
            Some(bytes) => match units(coding, block, first, at + chunk.len()) {
                None => None,
                Some(rest) => Some(bytes + rest),
            },
        }
    }
}

// ---------------------------------------------------------------------------
// Blocks
// ---------------------------------------------------------------------------

/// A block of plain bytes.
pub open spec fn raw_block(block: Seq<u8>) -> Seq<u8> {
    seq![0xccu8, 0x06u8] + block
}

/// A block that repeats one byte.
pub open spec fn memset_block(value: u8) -> Seq<u8> {
    seq![0x8cu8, 0x06u8, 0x07u8, 0xffu8, 0xffu8, value]
}

/// A block that holds a quantum.
pub open spec fn quantum_block(quantum: Seq<u8>) -> Seq<u8> {
    seq![0x8cu8, 0x06u8] + lz_encoder::be24_bytes((quantum.len() - 1) as nat) + quantum
}

/// All bytes are the same.
pub open spec fn is_constant(bytes: Seq<u8>) -> bool {
    forall|i: int| 0 <= i < bytes.len() ==> #[trigger] bytes[i] == bytes[0]
}

/// A block that repeats one byte, in the shorter of its two forms.
pub open spec fn constant_block(block: Seq<u8>) -> Seq<u8> {
    if block.len() < 4 {
        raw_block(block)
    } else {
        memset_block(block[0])
    }
}

/// How a block is written; `first` says that it starts the stream.
#[verifier::opaque]
pub open spec fn block_bytes(coding: Coding, block: Seq<u8>, first: bool) -> Option<Seq<u8>> {
    let quantum = units(coding, block, first, 0);
    match coding {
        Coding::Greedy => match quantum {
            None => None,
            Some(quantum) => if quantum.len() + 3 >= block.len() {
                None
            } else {
                Some(quantum_block(quantum))
            },
        },
        Coding::Entropy => if is_constant(block) {
            Some(constant_block(block))
        } else {
            match quantum {
                None => None,
                Some(quantum) => if quantum.len() + 3 >= block.len() {
                    None
                } else {
                    Some(quantum_block(quantum))
                },
            }
        },
        Coding::PeriodEight => match quantum {
            None => None,
            Some(quantum) => if quantum.len() + 3 < block.len() {
                Some(quantum_block(quantum))
            } else {
                Some(raw_block(block))
            },
        },
        Coding::Plain => if is_constant(block) {
            Some(constant_block(block))
        } else {
            Some(raw_block(block))
        },
    }
}

/// The block of the input that starts at `at`.
pub open spec fn block_at(input: Seq<u8>, at: nat) -> Seq<u8> {
    input.subrange(at as int, at as int + decoder::least((input.len() - at) as nat, BLOCK_SIZE as nat))
}

/// The blocks of the input from `at` on.
pub open spec fn stream(coding: Coding, input: Seq<u8>, at: nat) -> Option<Seq<u8>>
    decreases input.len() - at,
{
    if at >= input.len() {
        Some(seq![])
    } else {
        let block = block_at(input, at);
        match block_bytes(coding, block, at == 0) {
            None => None,
            Some(bytes) => match stream(coding, input, at + block.len()) {
                None => None,
                Some(rest) => Some(bytes + rest),
            },
        }
    }
}

/// Every byte is the one eight bytes before it.
pub open spec fn has_period_eight(input: Seq<u8>) -> bool {
    forall|i: int| 8 <= i < input.len() ==> #[trigger] input[i] == input[i - 8]
}

/// Whether the form of a stream can hold the bytes. That with period eight holds
/// only bytes that have this period.
pub open spec fn suits(coding: Coding, input: Seq<u8>) -> bool {
    coding is PeriodEight ==> input.len() >= 288 && has_period_eight(input)
}

/// The bytes as a stream of a form, if it can hold them.
pub open spec fn candidate(coding: Coding, input: Seq<u8>) -> Option<Seq<u8>> {
    if suits(coding, input) {
        stream(coding, input, 0)
    } else {
        None
    }
}

/// The shorter of two candidates, and the first of two that are as long.
pub open spec fn shorter(a: Option<Seq<u8>>, b: Option<Seq<u8>>) -> Option<Seq<u8>> {
    match (a, b) {
        (Some(x), Some(y)) => if y.len() < x.len() {
            b
        } else {
            a
        },
        (Some(_), None) => a,
        (None, _) => b,
    }
}

/// How bytes are written: as the shortest candidate.
pub open spec fn encoded(input: Seq<u8>) -> Seq<u8> {
    shorter(
        shorter(
            shorter(
                candidate(Coding::PeriodEight, input),
                candidate(Coding::Entropy, input),
            ),
            candidate(Coding::Greedy, input),
        ),
        candidate(Coding::Plain, input),
    )->0
}

// ---------------------------------------------------------------------------
// Encoding
// ---------------------------------------------------------------------------

/// Writes an extended length by itself.
pub fn encode_extended_length(value: usize) -> (result: Vec<u8>)
    requires
        value < writers::EXTENDED_LENGTHS,
    ensures
        result@ == bits::msb_pack(writers::extended_bits(value as nat)),
{
    let mut writer: MsbBits = MsbBits::new();
    writer.push_extended_length(value);
    assert(writer.bits() =~= writers::extended_bits(value as nat));
    writer.finish()
}

/// Writes bytes as the smaller of two coded arrays.
pub fn encode_entropy_array(input: &[u8]) -> (result: Option<Vec<u8>>)
    ensures
        match entropy_array(input@) {
            None => result is None,
            Some(bytes) => result matches Some(r) && r@ == bytes,
        },
{
    reveal(entropy_array);
    let huffman: Option<Vec<u8>> = encode_huffman_array(input);
    let tans: Option<Vec<u8>> = encode_tans_array(input);
    match huffman {
        None => tans,
        Some(huffman) => match tans {
            None => Some(huffman),
            Some(tans) => if tans.len() < huffman.len() {
                Some(tans)
            } else {
                Some(huffman)
            },
        },
    }
}

/// Writes a chunk that is one match at distance eight and eight literals.
fn encode_period_eight_chunk(chunk: &[u8], first: bool) -> (result: Vec<u8>)
    requires
        period_minimum(first) <= chunk@.len() <= CHUNK_SIZE,
    ensures
        result@ == period_chunk(chunk@, first),
{
    let history: usize = if first {
        8
    } else {
        0
    };
    let match_length: usize = chunk.len() - 8 - history;
    let mut lz: Vec<u8> = Vec::new();
    append(&mut lz, part(chunk, 0, history));
    encode_stored_array(&mut lz, part(chunk, chunk.len() - 8, chunk.len()));
    let command: Vec<u8> = vec![0x7c];
    let long: Vec<u8> = vec![0xff];
    let none: Vec<u8> = Vec::new();
    encode_stored_array(&mut lz, &command);
    encode_stored_array(&mut lz, &none);
    encode_stored_array(&mut lz, &long);
    let extended: Vec<u8> = encode_extended_length(match_length - 272);
    append(&mut lz, &extended);
    lz.push(0x40);
    proof {
        assert(command@ =~= seq![0x7cu8]);
        assert(long@ =~= seq![0xffu8]);
        assert(none@ =~= Seq::<u8>::empty());
        assert(lz@ =~= period_chunk(chunk@, first));
    }
    lz
}

/// Appends a chunk with matches, or else a chunk of plain bytes.
fn append_unit(output: &mut Vec<u8>, chunk: &[u8], lz: Option<Vec<u8>>)
    requires
        chunk@.len() <= CHUNK_SIZE,
        lz matches Some(lz) ==> lz@.len() <= 0x7_ffff,
    ensures
        final(output)@ == old(output)@ + match lz {
            Some(lz) => lz_unit(lz@),
            None => plain_unit(chunk@),
        },
{
    match lz {
        Some(lz) => {
            write_be24(output, 0x88_0000 + lz.len() as u32);
            append(output, &lz);
            assert(output@ =~= old(output)@ + lz_unit(lz@));
        },
        None => {
            write_be24(output, 0x80_0000 + chunk.len() as u32);
            append(output, chunk);
            assert(output@ =~= old(output)@ + plain_unit(chunk@));
        },
    }
}

/// Appends a chunk, if it can be written.
fn encode_unit(output: &mut Vec<u8>, coding: Coding, chunk: &[u8], first: bool) -> (result: bool)
    requires
        0 < chunk@.len() <= CHUNK_SIZE,
    ensures
        match unit(coding, chunk@, first) {
            None => !result,
            Some(bytes) => result && final(output)@ == old(output)@ + bytes,
        },
{
    reveal(unit);
    match coding {
        Coding::Greedy => {
            let lz: Option<Vec<u8>> = match encode_stable_distance_lz_chunk(chunk, first) {
                Some(lz) => Some(lz),
                None => encode_greedy_lz_chunk(chunk, first),
            };
            proof {
                stream_laws::lemma_lz_sizes(chunk@, first);
            }
            append_unit(output, chunk, lz);
            true
        },
        Coding::Entropy => match encode_entropy_array(chunk) {
            None => false,
            Some(bytes) => {
                append(output, &bytes);
                true
            },
        },
        Coding::PeriodEight => {
            let minimum: usize = if first {
                288
            } else {
                280
            };
            let lz: Option<Vec<u8>> = if chunk.len() < minimum {
                None
            } else {
                Some(encode_period_eight_chunk(chunk, first))
            };
            proof {
                if chunk@.len() >= minimum {
                    stream_laws::lemma_period_size(chunk@, first);
                }
            }
            append_unit(output, chunk, lz);
            true
        },
        Coding::Plain => {
            append_unit(output, chunk, None);
            true
        },
    }
}

/// Writes the chunks of a block, if all can be written.
fn encode_units(coding: Coding, block: &[u8], first: bool) -> (result: Option<Vec<u8>>)
    requires
        block@.len() <= BLOCK_SIZE,
    ensures
        match units(coding, block@, first, 0) {
            None => result is None,
            Some(bytes) => result matches Some(r) && r@ == bytes,
        },
{
    let mut quantum: Vec<u8> = Vec::new();
    let mut at: usize = 0;
    let ghost whole = units(coding, block@, first, 0);
    proof {
        if whole is Some {
            assert(quantum@ + whole->0 =~= whole->0);
        }
    }
    while at < block.len()
        invariant
            at <= block@.len() <= BLOCK_SIZE,
            whole == units(coding, block@, first, 0),
            match units(coding, block@, first, at as nat) {
                None => whole is None,
                Some(rest) => whole == Some(quantum@ + rest),
            },
        decreases block@.len() - at,
    {
        let size: usize = least_of(block.len() - at, CHUNK_SIZE);
        let chunk: &[u8] = part(block, at, at + size);
        assert(chunk@ == chunk_at(block@, at as nat));
        let ghost before = quantum@;
        if !encode_unit(&mut quantum, coding, chunk, first && at == 0) {
            return None;
        }
        proof {
            let bytes = unit(coding, chunk@, first && at == 0)->0;
            match units(coding, block@, first, (at + size) as nat) {
                None => {},
                Some(rest) => {
                    assert(before + (bytes + rest) =~= quantum@ + rest);
                },
            }
        }
        at = at + size;
    }
    assert(quantum@ + Seq::<u8>::empty() =~= quantum@);
    Some(quantum)
}

/// Tells whether all bytes are the same.
fn all_same(bytes: &[u8]) -> (result: bool)
    ensures
        result == is_constant(bytes@),
{
    let mut i: usize = 0;
    while i < bytes.len()
        invariant
            i <= bytes@.len(),
            forall|k: int| 0 <= k < i ==> #[trigger] bytes@[k] == bytes@[0],
        decreases bytes@.len() - i,
    {
        if bytes[i] != bytes[0] {
            assert(bytes@[i as int] != bytes@[0]);
            return false;
        }
        i = i + 1;
    }
    true
}

fn append_quantum(output: &mut Vec<u8>, quantum: &[u8])
    requires
        0 < quantum@.len() <= 0x4_0000,
    ensures
        final(output)@ == old(output)@ + quantum_block(quantum@),
{
    output.push(0x8c);
    output.push(0x06);
    write_be24(output, (quantum.len() - 1) as u32);
    append(output, quantum);
    assert(output@ =~= old(output)@ + quantum_block(quantum@));
}

fn append_memset(output: &mut Vec<u8>, value: u8)
    ensures
        final(output)@ == old(output)@ + memset_block(value),
{
    output.push(0x8c);
    output.push(0x06);
    output.push(0x07);
    output.push(0xff);
    output.push(0xff);
    output.push(value);
    assert(output@ =~= old(output)@ + memset_block(value));
}

fn append_raw(output: &mut Vec<u8>, block: &[u8])
    ensures
        final(output)@ == old(output)@ + raw_block(block@),
{
    output.push(0xcc);
    output.push(0x06);
    append(output, block);
    assert(output@ =~= old(output)@ + raw_block(block@));
}

/// Appends a block, if it can be written.
fn encode_block(output: &mut Vec<u8>, coding: Coding, block: &[u8], first: bool) -> (result: bool)
    requires
        0 < block@.len() <= BLOCK_SIZE,
    ensures
        match block_bytes(coding, block@, first) {
            None => !result,
            Some(bytes) => result && final(output)@ == old(output)@ + bytes,
        },
{
    reveal(block_bytes);
    let repeats: bool = match coding {
        Coding::Entropy => all_same(block),
        Coding::Plain => all_same(block),
        Coding::Greedy => false,
        Coding::PeriodEight => false,
    };
    if repeats {
        if block.len() < 4 {
            append_raw(output, block);
        } else {
            append_memset(output, block[0]);
        }
        return true;
    }
    if let Coding::Plain = coding {
        append_raw(output, block);
        return true;
    }
    let quantum: Vec<u8> = match encode_units(coding, block, first) {
        None => return false,
        Some(quantum) => quantum,
    };
    proof {
        stream_laws::lemma_units_size(coding, block@, first, 0);
    }
    if quantum.len() < block.len() && quantum.len() + 3 < block.len() {
        append_quantum(output, &quantum);
        return true;
    }
    if let Coding::PeriodEight = coding {
        append_raw(output, block);
        return true;
    }
    false
}

/// Writes all blocks, if all can be written.
fn encode_stream(coding: Coding, input: &[u8]) -> (result: Option<Vec<u8>>)
    ensures
        match stream(coding, input@, 0) {
            None => result is None,
            Some(bytes) => result matches Some(r) && r@ == bytes,
        },
{
    let mut output: Vec<u8> = Vec::new();
    let mut at: usize = 0;
    let ghost whole = stream(coding, input@, 0);
    proof {
        if whole is Some {
            assert(output@ + whole->0 =~= whole->0);
        }
    }
    while at < input.len()
        invariant
            at <= input@.len(),
            whole == stream(coding, input@, 0),
            match stream(coding, input@, at as nat) {
                None => whole is None,
                Some(rest) => whole == Some(output@ + rest),
            },
        decreases input@.len() - at,
    {
        let size: usize = least_of(input.len() - at, BLOCK_SIZE);
        let block: &[u8] = part(input, at, at + size);
        assert(block@ == block_at(input@, at as nat));
        let ghost before = output@;
        if !encode_block(&mut output, coding, block, at == 0) {
            return None;
        }
        proof {
            let bytes = block_bytes(coding, block@, at == 0)->0;
            match stream(coding, input@, (at + size) as nat) {
                None => {},
                Some(rest) => {
                    assert(before + (bytes + rest) =~= output@ + rest);
                },
            }
        }
        at = at + size;
    }
    assert(output@ + Seq::<u8>::empty() =~= output@);
    Some(output)
}

/// Tells whether every byte is the one eight bytes before it.
fn repeats_every_eight(input: &[u8]) -> (result: bool)
    ensures
        result == has_period_eight(input@),
{
    let mut i: usize = 8;
    while i < input.len()
        invariant
            8 <= i,
            i <= input@.len() || i == 8,
            forall|k: int| 8 <= k < i && k < input@.len() ==> #[trigger] input@[k] == input@[k - 8],
        decreases input@.len() - i,
    {
        if input[i] != input[i - 8] {
            assert(input@[i as int] != input@[i - 8]);
            return false;
        }
        i = i + 1;
    }
    true
}

/// Writes bytes as a stream of a form, if it can hold them.
fn encode_candidate(coding: Coding, input: &[u8]) -> (result: Option<Vec<u8>>)
    ensures
        match candidate(coding, input@) {
            None => result is None,
            Some(bytes) => result matches Some(r) && r@ == bytes,
        },
{
    if let Coding::PeriodEight = coding {
        if input.len() < 288 || !repeats_every_eight(input) {
            return None;
        }
    }
    encode_stream(coding, input)
}

/// The view of bytes that may be missing.
pub open spec fn bytes_of(bytes: Option<Vec<u8>>) -> Option<Seq<u8>> {
    match bytes {
        Some(bytes) => Some(bytes@),
        None => None,
    }
}

/// Chooses the shorter of two candidates.
fn choose_shorter(a: Option<Vec<u8>>, b: Option<Vec<u8>>) -> (result: Option<Vec<u8>>)
    ensures
        bytes_of(result) == shorter(bytes_of(a), bytes_of(b)),
{
    match (a, b) {
        (Some(a), Some(b)) => if b.len() < a.len() {
            Some(b)
        } else {
            Some(a)
        },
        (Some(a), None) => Some(a),
        (None, b) => b,
    }
}

/// Encodes bytes as a Kraken stream.
///
/// The encoder chooses the smallest candidate among repeated bytes, canonical
/// Huffman and asymmetric numeral system arrays, LZ chunks and plain blocks.
pub fn encode(input: &[u8]) -> (result: Vec<u8>)
    ensures
        result@ == encoded(input@),
        exists|c: Coding| #[trigger] candidate(c, input@) == Some(result@),
        forall|c: Coding|
            (#[trigger] candidate(c, input@)) is Some ==> result@.len() <= candidate(
                c,
                input@,
            )->0.len(),
        decoder::decoded(result@, input@.len()) == Ok::<Seq<u8>, super::KrakenError>(input@),
{
    let size: usize = input.len();
    proof {
        assert(input@.len() == size);
        stream_laws::law_decode_encode(input@);
        stream_laws::law_shortest(input@);
    }
    let mut best: Option<Vec<u8>> = encode_candidate(Coding::PeriodEight, input);
    best = choose_shorter(best, encode_candidate(Coding::Entropy, input));
    best = choose_shorter(best, encode_candidate(Coding::Greedy, input));
    best = choose_shorter(best, encode_candidate(Coding::Plain, input));
    match best {
        Some(output) => output,
        None => Vec::new(),
    }
}

} // verus!
