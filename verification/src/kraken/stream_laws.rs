//! What is encoded is decoded.

use super::bits;
use super::cursor;
use super::decoder;
use super::decoder::{BLOCK_SIZE, CHUNK_SIZE};
use super::encoder;
use super::encoder::Coding;
use super::huffman_encoder;
use super::huffman_laws;
use super::lz;
use super::lz_encoder;
use super::lz_laws;
use super::tans_laws;
use super::writers;
use super::KrakenError;
use crate::sequence;
use vstd::arithmetic::power2::{lemma2_to64, lemma_pow2_strictly_increases};
use vstd::prelude::*;

verus! {

// ---------------------------------------------------------------------------
// Sizes
// ---------------------------------------------------------------------------

/// LZ chunks are smaller than what they hold.
pub proof fn lemma_lz_sizes(chunk: Seq<u8>, first: bool)
    requires
        chunk.len() <= CHUNK_SIZE,
    ensures
        lz_encoder::stable_chunk(chunk, first) matches Some(lz) ==> lz.len() < chunk.len(),
        lz_encoder::greedy_chunk(chunk, first) matches Some(lz) ==> lz.len() < chunk.len(),
{
    reveal(lz_encoder::stable_chunk);
    reveal(lz_encoder::greedy_chunk);
}

proof fn lemma_extended_len(value: nat)
    requires
        value < 0x2_0000,
    ensures
        writers::extended_bits(value).len() <= 40,
{
    lemma2_to64();
    assert(writers::tier_base(0) == 0);
    writers::lemma_tier_of(value, 0);
    let tier = writers::tier_of(value, 0);
    if tier > 12 {
        if tier > 13 {
            lemma_pow2_strictly_increases(13, tier);
        }
        assert(false);
    }
    bits::lemma_value_bits_len((value - writers::tier_base(tier)) as nat, tier + 6);
}

/// A chunk with one match is short.
pub proof fn lemma_period_size(chunk: Seq<u8>, first: bool)
    requires
        encoder::period_minimum(first) <= chunk.len() <= CHUNK_SIZE,
    ensures
        encoder::period_chunk(chunk, first).len() <= 40,
{
    lemma_extended_len((encoder::period_match(chunk, first) - 272) as nat);
}

proof fn lemma_entropy_size(chunk: Seq<u8>)
    ensures
        encoder::entropy_array(chunk) matches Some(bytes) ==> 5 <= bytes.len() <= chunk.len() + 5,
{
    reveal(encoder::entropy_array);
}

proof fn lemma_unit_size(coding: Coding, chunk: Seq<u8>, first: bool)
    requires
        0 < chunk.len() <= CHUNK_SIZE,
    ensures
        encoder::unit(coding, chunk, first) matches Some(bytes) ==> 3 <= bytes.len() <= chunk.len()
            + 5,
{
    reveal(encoder::unit);
    lemma_lz_sizes(chunk, first);
    lemma_entropy_size(chunk);
    if chunk.len() >= encoder::period_minimum(first) {
        lemma_period_size(chunk, first);
    }
}

/// Chunks take some bytes, and not many more than what they hold.
pub proof fn lemma_units_size(coding: Coding, block: Seq<u8>, first: bool, at: nat)
    requires
        block.len() <= BLOCK_SIZE,
        at <= block.len(),
    ensures
        encoder::units(coding, block, first, at) matches Some(bytes) ==> bytes.len() <= 6 * (
        block.len() - at) && (at < block.len() ==> bytes.len() > 0),
    decreases block.len() - at,
{
    if at < block.len() {
        let chunk = encoder::chunk_at(block, at);
        lemma_units_size(coding, block, first, at + chunk.len());
        lemma_unit_size(coding, chunk, first && at == 0);
    }
}

/// Streams of plain blocks, and those with period eight, can always be written.
pub proof fn lemma_always_some(coding: Coding, input: Seq<u8>, at: nat)
    requires
        coding is Plain || coding is PeriodEight,
    ensures
        encoder::stream(coding, input, at) is Some,
    decreases input.len() - at,
{
    reveal(encoder::block_bytes);
    if at < input.len() {
        let block = encoder::block_at(input, at);
        lemma_units_some(coding, block, at == 0, 0);
        lemma_always_some(coding, input, at + block.len());
    }
}

proof fn lemma_units_some(coding: Coding, block: Seq<u8>, first: bool, at: nat)
    requires
        coding is Plain || coding is PeriodEight,
    ensures
        encoder::units(coding, block, first, at) is Some,
    decreases block.len() - at,
{
    reveal(encoder::unit);
    if at < block.len() {
        lemma_units_some(coding, block, first, at + encoder::chunk_at(block, at).len());
    }
}

// ---------------------------------------------------------------------------
// Chunks
// ---------------------------------------------------------------------------

proof fn lemma_read_be24(bytes: Seq<u8>, at: nat, value: nat)
    requires
        value <= 0xff_ffff,
        sequence::stands(bytes, at, lz_encoder::be24_bytes(value)),
    ensures
        cursor::be24(bytes, at as int) == value,
        at + 3 <= bytes.len(),
{
    let header = lz_encoder::be24_bytes(value);
    sequence::lemma_stands_index(bytes, at, header, 0);
    sequence::lemma_stands_index(bytes, at, header, 1);
    sequence::lemma_stands_index(bytes, at, header, 2);
}

/// A chunk of plain bytes is read back.
proof fn lemma_read_plain(payload: Seq<u8>, at: nat, base: nat, out: Seq<u8>, chunk: Seq<u8>)
    requires
        0 < chunk.len() <= CHUNK_SIZE,
        sequence::stands(payload, at, encoder::plain_unit(chunk)),
    ensures
        decoder::quantum_chunk(payload, at, base, out, chunk.len()) == Ok::<
            (Seq<u8>, nat),
            KrakenError,
        >((out + chunk, at + encoder::plain_unit(chunk).len())),
{
    reveal(decoder::quantum_chunk);
    let header = lz_encoder::be24_bytes(0x80_0000 + chunk.len());
    sequence::lemma_stands_split(payload, at, header, chunk);
    lemma_read_be24(payload, at, 0x80_0000 + chunk.len());
}

/// A chunk with matches that is decoded is read back.
proof fn lemma_read_lz(
    payload: Seq<u8>,
    at: nat,
    base: nat,
    out: Seq<u8>,
    chunk: Seq<u8>,
    lz: Seq<u8>,
)
    requires
        0 < chunk.len() <= CHUNK_SIZE,
        lz.len() < chunk.len(),
        sequence::stands(payload, at, encoder::lz_unit(lz)),
        lz::lz_chunk(lz, chunk.len(), out, 1, base + (at + 3)) == Ok::<Seq<u8>, KrakenError>(
            out + chunk,
        ),
    ensures
        decoder::quantum_chunk(payload, at, base, out, chunk.len()) == Ok::<
            (Seq<u8>, nat),
            KrakenError,
        >((out + chunk, at + encoder::lz_unit(lz).len())),
{
    reveal(decoder::quantum_chunk);
    let header = lz_encoder::be24_bytes(0x88_0000 + lz.len());
    sequence::lemma_stands_split(payload, at, header, lz);
    lemma_read_be24(payload, at, 0x88_0000 + lz.len());
}

/// A coded array is read back.
proof fn lemma_read_entropy(payload: Seq<u8>, at: nat, base: nat, out: Seq<u8>, chunk: Seq<u8>)
    requires
        0 < chunk.len() <= CHUNK_SIZE,
        encoder::entropy_array(chunk) is Some,
        sequence::stands(payload, at, encoder::entropy_array(chunk)->0),
    ensures
        decoder::quantum_chunk(payload, at, base, out, chunk.len()) == Ok::<
            (Seq<u8>, nat),
            KrakenError,
        >((out + chunk, at + encoder::entropy_array(chunk)->0.len())),
{
    reveal(encoder::entropy_array);
    reveal(decoder::quantum_chunk);
    let bytes = encoder::entropy_array(chunk)->0;
    let size = Some(chunk.len() as usize);
    lemma_entropy_size(chunk);
    if huffman_encoder::huffman_array(chunk) == Some(bytes) {
        huffman_laws::law_huffman_array(payload, at, base, size, chunk);
    } else {
        tans_laws::law_tans_array(payload, at, base, size, chunk);
    }
}

// ---------------------------------------------------------------------------
// Period eight
// ---------------------------------------------------------------------------

/// Copying from eight bytes back continues bytes with period eight.
proof fn lemma_copy_period(whole: Seq<u8>, from: nat, count: nat)
    requires
        encoder::has_period_eight(whole),
        8 <= from,
        from + count <= whole.len(),
    ensures
        lz::copy_back(whole.subrange(0, from as int), 8, count) == whole.subrange(
            0,
            (from + count) as int,
        ),
    decreases count,
{
    if count > 0 {
        lemma_copy_period(whole, from, (count - 1) as nat);
        let n = (from + count - 1) as int;
        assert(whole[n] == whole[n - 8]);
        assert(whole.subrange(0, n).push(whole[n]) =~= whole.subrange(0, n + 1));
    }
}

/// The side streams of a chunk with period eight are read back.
proof fn lemma_period_streams(chunk: Seq<u8>, first: bool, base: nat)
    requires
        encoder::period_minimum(first) <= chunk.len() <= CHUNK_SIZE,
    ensures
        ({
            let start = lz_encoder::history_len(first);
            let payload = encoder::period_chunk(chunk, first);
            &&& lz::lz_streams(payload, start, base, chunk.len()) == Ok::<
                lz::LzStreams,
                KrakenError,
            >(
                lz::LzStreams {
                    literals: chunk.subrange(chunk.len() - 8, chunk.len() as int),
                    commands: seq![0x7cu8],
                    offsets: seq![],
                    lengths: seq![(encoder::period_match(chunk, first) - 14) as usize],
                },
            )
            &&& payload.subrange(0, start as int) == chunk.subrange(0, start as int)
            &&& payload.len() >= start
        }),
{
    let start = lz_encoder::history_len(first);
    let payload = encoder::period_chunk(chunk, first);
    let literals = chunk.subrange(chunk.len() - 8, chunk.len() as int);
    let commands = seq![0x7cu8];
    let count = encoder::period_match(chunk, first);
    let longs = seq![(count - 14) as usize];
    let none = Seq::<usize>::empty();
    let extended = seq![(count - 272) as usize];
    let history = chunk.subrange(0, start as int);
    assert(longs.drop_last() =~= none);
    assert(lz_encoder::extended_of(none) =~= none);
    assert(lz_encoder::extended_of(longs) =~= extended);
    assert(lz_encoder::length_codes(longs) =~= seq![0xffu8]);
    assert(lz_encoder::offset_codes(none) =~= Seq::<u8>::empty());
    lemma_period_suffix((count - 272) as usize);
    let tail = lz_encoder::stored(literals) + lz_encoder::stored(commands) + Seq::<u8>::empty()
        + lz_encoder::stored(lz_encoder::offset_codes(none)) + lz_encoder::stored(
        lz_encoder::length_codes(longs),
    ) + lz_encoder::suffix_bytes(none, extended);
    assert(payload =~= history + tail);
    assert(payload.subrange(start as int, payload.len() as int) =~= tail);
    lz_laws::lemma_read_streams(
        payload,
        start,
        base,
        literals,
        commands,
        seq![],
        none,
        longs,
        chunk.len(),
    );
    assert(lz_laws::negated(none) =~= Seq::<i32>::empty());
    assert(payload.subrange(0, start as int) =~= history);
}

/// The bits after the arrays: one extended length, and how many there are.
proof fn lemma_period_suffix(value: usize)
    ensures
        lz_encoder::suffix_bytes(seq![], seq![value]) == bits::msb_pack(
            writers::extended_bits(value as nat),
        ) + seq![0x40u8],
{
    let none = Seq::<usize>::empty();
    let one = seq![value];
    assert(lz_encoder::length_bits(one, 0, 0) =~= Seq::<bool>::empty());
    assert(lz_encoder::length_bits(one, 1, 0) =~= writers::extended_bits(value as nat));
    assert(lz_encoder::length_bits(one, 0, 1) =~= Seq::<bool>::empty());
    assert(lz_encoder::length_bits(one, 1, 1) =~= Seq::<bool>::empty());
    assert(lz_encoder::front_bits(none, one) =~= writers::extended_bits(value as nat));
    lemma_two_gamma();
    let two = seq![false, true, false];
    assert(lz_encoder::back_bits(none, one) =~= two);
    let packed = bits::msb_pack(two);
    assert(packed.len() == 1);
    assert(bits::msb_byte(two, 0) == 0x40);
    assert(packed.reverse() =~= seq![0x40u8]);
}

proof fn lemma_two_gamma()
    ensures
        writers::gamma_bits(2) == seq![false, true, false],
{
    lemma2_to64();
    writers::lemma_log2_unique(2, 1);
    assert(bits::value_bits(0, 0) =~= Seq::<bool>::empty());
    assert(bits::value_bits(1, 1) =~= seq![true]);
    assert(bits::value_bits(2, 2) =~= seq![true, false]);
    assert(writers::gamma_bits(2) =~= seq![false, true, false]);
}

/// A chunk with period eight is read back.
proof fn lemma_read_period(
    payload: Seq<u8>,
    at: nat,
    base: nat,
    out: Seq<u8>,
    chunk: Seq<u8>,
)
    requires
        encoder::period_minimum(out.len() == 0) <= chunk.len() <= CHUNK_SIZE,
        encoder::has_period_eight(out + chunk),
        out.len() == 0 || out.len() >= 8,
        out.len() + chunk.len() <= usize::MAX,
        sequence::stands(
            payload,
            at,
            encoder::lz_unit(encoder::period_chunk(chunk, out.len() == 0)),
        ),
    ensures
        decoder::quantum_chunk(payload, at, base, out, chunk.len()) == Ok::<
            (Seq<u8>, nat),
            KrakenError,
        >(
            (
                out + chunk,
                at + encoder::lz_unit(encoder::period_chunk(chunk, out.len() == 0)).len(),
            ),
        ),
{
    reveal(lz::lz_chunk);
    let first = out.len() == 0;
    let start = lz_encoder::history_len(first);
    let lz = encoder::period_chunk(chunk, first);
    lemma_period_size(chunk, first);
    lemma_period_streams(chunk, first, base + (at + 3));
    lemma_run_period(out, chunk);
    lemma_read_lz(payload, at, base, out, chunk, lz);
}

/// One match at distance eight.
proof fn lemma_period_step(
    begin: lz::LzState,
    literals: Seq<u8>,
    lengths: Seq<usize>,
    end: nat,
    count: nat,
)
    requires
        begin == lz::lz_start(begin.out),
        begin.out.len() >= 8,
        lengths.len() == 1,
        lengths[0] + 14 == count,
        count <= usize::MAX,
        begin.out.len() + count <= end,
    ensures
        lz::lz_step(begin, literals, seq![], lengths, 0x7c, 1, end) == Some(
            lz::LzState { out: lz::copy_back(begin.out, 8, count), length: 1, ..begin },
        ),
{
    assert(begin.out + literals.subrange(0, 0) =~= begin.out);
    let command = 0x7cu8;
    assert(lz::lz_literal_count(begin, lengths, command) == Some((0nat, 0nat)));
    assert(lz::lz_literals(begin, literals, 0, 1, end) == Some(begin));
    assert(lz::lz_offset(begin, seq![], command) == Some(begin));
    assert(lz::lz_match_count(begin, lengths, command) == Some((count, 1nat)));
}

/// The match and the literals of a chunk with period eight give its bytes.
proof fn lemma_run_period(out: Seq<u8>, chunk: Seq<u8>)
    requires
        encoder::period_minimum(out.len() == 0) <= chunk.len() <= CHUNK_SIZE,
        encoder::has_period_eight(out + chunk),
        out.len() == 0 || out.len() >= 8,
        out.len() + chunk.len() <= usize::MAX,
    ensures
        lz::lz_commands(
            out + chunk.subrange(0, lz_encoder::history_len(out.len() == 0) as int),
            out.len() + chunk.len(),
            chunk.subrange(chunk.len() - 8, chunk.len() as int),
            seq![0x7cu8],
            seq![],
            seq![(encoder::period_match(chunk, out.len() == 0) - 14) as usize],
            1,
        ) == Some(out + chunk),
{
    let start = lz_encoder::history_len(out.len() == 0);
    let whole = out + chunk;
    let count = encoder::period_match(chunk, out.len() == 0);
    let from = out.len() + start;
    let before = out + chunk.subrange(0, start as int);
    let literals = chunk.subrange(chunk.len() - 8, chunk.len() as int);
    let lengths = seq![(count - 14) as usize];
    let end = out.len() + chunk.len();
    let begin = lz::lz_start(before);
    let copied = lz::copy_back(before, 8, count);
    assert(copied == whole.subrange(0, (from + count) as int)) by {
        assert(before =~= whole.subrange(0, from as int));
        lemma_copy_period(whole, from, count);
    }
    assert(copied + literals =~= whole);
    lemma_period_step(begin, literals, lengths, end, count);
    lemma_one_command(begin, literals, lengths, end, copied);
}

/// One command, and the literals that are left.
proof fn lemma_one_command(
    begin: lz::LzState,
    literals: Seq<u8>,
    lengths: Seq<usize>,
    end: nat,
    copied: Seq<u8>,
)
    requires
        begin == lz::lz_start(begin.out),
        begin.out.len() <= end,
        lengths.len() == 1,
        copied.len() + literals.len() == end,
        lz::lz_step(begin, literals, seq![], lengths, 0x7c, 1, end) == Some(
            lz::LzState { out: copied, length: 1, ..begin },
        ),
    ensures
        lz::lz_commands(begin.out, end, literals, seq![0x7cu8], seq![], lengths, 1) == Some(
            copied + literals,
        ),
{
    let commands = seq![0x7cu8];
    let offsets = Seq::<i32>::empty();
    let after = lz::LzState { out: copied, length: 1, ..begin };
    assert(lz::lz_steps(begin, literals, commands, offsets, lengths, 1, end, 0) == Some(begin));
    assert(commands[0] == 0x7c);
    assert(lz::lz_steps(begin, literals, commands, offsets, lengths, 1, end, 1) == Some(after));
    assert(literals.subrange(0, literals.len() as int) =~= literals);
}

// ---------------------------------------------------------------------------
// Blocks
// ---------------------------------------------------------------------------

/// A chunk is read back.
proof fn lemma_read_unit(
    coding: Coding,
    payload: Seq<u8>,
    at: nat,
    base: nat,
    out: Seq<u8>,
    chunk: Seq<u8>,
)
    requires
        0 < chunk.len() <= CHUNK_SIZE,
        out.len() + chunk.len() <= usize::MAX,
        coding is PeriodEight ==> encoder::has_period_eight(out + chunk) && (out.len() == 0
            || out.len() >= 8),
        encoder::unit(coding, chunk, out.len() == 0) is Some,
        sequence::stands(payload, at, encoder::unit(coding, chunk, out.len() == 0)->0),
    ensures
        decoder::quantum_chunk(payload, at, base, out, chunk.len()) == Ok::<
            (Seq<u8>, nat),
            KrakenError,
        >((out + chunk, at + encoder::unit(coding, chunk, out.len() == 0)->0.len())),
{
    reveal(encoder::unit);
    let first = out.len() == 0;
    match coding {
        Coding::Greedy => {
            lz_laws::law_stable_chunk(chunk, out, base + (at + 3));
            lz_laws::law_greedy_chunk(chunk, out, base + (at + 3));
            match lz_encoder::stable_chunk(chunk, first) {
                Some(lz) => {
                    lemma_read_lz(payload, at, base, out, chunk, lz);
                },
                None => {
                    match lz_encoder::greedy_chunk(chunk, first) {
                        Some(lz) => {
                            lemma_read_lz(payload, at, base, out, chunk, lz);
                        },
                        None => {
                            lemma_read_plain(payload, at, base, out, chunk);
                        },
                    }
                },
            }
        },
        Coding::Entropy => {
            lemma_read_entropy(payload, at, base, out, chunk);
        },
        Coding::PeriodEight => {
            if chunk.len() < encoder::period_minimum(first) {
                lemma_read_plain(payload, at, base, out, chunk);
            } else {
                lemma_read_period(payload, at, base, out, chunk);
            }
        },
        Coding::Plain => {
            lemma_read_plain(payload, at, base, out, chunk);
        },
    }
}

/// The chunks of a block from `done` on are read back.
#[verifier::spinoff_prover]
#[verifier::rlimit(60)]
proof fn lemma_read_units(
    coding: Coding,
    payload: Seq<u8>,
    at: nat,
    base: nat,
    out: Seq<u8>,
    block: Seq<u8>,
    done: nat,
)
    requires
        block.len() <= BLOCK_SIZE,
        done == 0 || done >= 8 || done == block.len(),
        done <= block.len(),
        out.len() + block.len() <= usize::MAX,
        coding is PeriodEight ==> encoder::has_period_eight(out + block) && (out.len() == 0
            || out.len() >= 8),
        encoder::units(coding, block, out.len() == 0, done) is Some,
        payload.len() == at + encoder::units(coding, block, out.len() == 0, done)->0.len(),
        sequence::stands(payload, at, encoder::units(coding, block, out.len() == 0, done)->0),
    ensures
        decoder::quantum_chunks(
            payload,
            at,
            base,
            out + block.subrange(0, done as int),
            out.len() + block.len(),
        ) == Ok::<Seq<u8>, KrakenError>(out + block),
    decreases block.len() - done,
{
    let first = out.len() == 0;
    let so_far = out + block.subrange(0, done as int);
    if done == block.len() {
        assert(block.subrange(0, done as int) =~= block);
    } else {
        let chunk = encoder::chunk_at(block, done);
        let bytes = encoder::unit(coding, chunk, first && done == 0)->0;
        let next = done + chunk.len();
        let rest = encoder::units(coding, block, first, next)->0;
        sequence::lemma_stands_split(payload, at, bytes, rest);
        assert(so_far + chunk =~= out + block.subrange(0, next as int));
        assert((first && done == 0) == (so_far.len() == 0));
        if coding is PeriodEight {
            let whole = out + block;
            let sub = so_far + chunk;
            assert forall|i: int| 8 <= i < sub.len() implies #[trigger] sub[i] == sub[i - 8] by {
                assert(sub[i] == whole[i]);
                assert(sub[i - 8] == whole[i - 8]);
            }
        }
        lemma_read_unit(coding, payload, at, base, so_far, chunk);
        lemma_read_units(coding, payload, at + bytes.len(), base, out, block, next);
    }
}

/// A block with a quantum is read back.
proof fn lemma_read_quantum(
    coding: Coding,
    bytes: Seq<u8>,
    at: nat,
    out: Seq<u8>,
    block: Seq<u8>,
    quantum: Seq<u8>,
)
    requires
        0 < block.len() <= BLOCK_SIZE,
        out.len() + block.len() <= usize::MAX,
        coding is PeriodEight ==> encoder::has_period_eight(out + block) && (out.len() == 0
            || out.len() >= 8),
        encoder::units(coding, block, out.len() == 0, 0) == Some(quantum),
        0 < quantum.len() < block.len(),
        sequence::stands(bytes, at, encoder::quantum_block(quantum)),
    ensures
        decoder::block(bytes, at, out, block.len()) == Ok::<(Seq<u8>, nat), KrakenError>(
            (out + block, at + encoder::quantum_block(quantum).len()),
        ),
{
    reveal(decoder::block);
    let mark = seq![0x8cu8, 0x06u8];
    let header = lz_encoder::be24_bytes((quantum.len() - 1) as nat);
    sequence::lemma_stands_split(bytes, at, mark + header, quantum);
    sequence::lemma_stands_split(bytes, at, mark, header);
    sequence::lemma_stands_index(bytes, at, mark, 0);
    sequence::lemma_stands_index(bytes, at, mark, 1);
    lemma_read_be24(bytes, at + 2, (quantum.len() - 1) as nat);
    assert(quantum.subrange(0, quantum.len() as int) =~= quantum);
    assert(out + block.subrange(0, 0) =~= out);
    lemma_read_units(coding, quantum, 0, at + 5, out, block, 0);
}

/// A block is read back.
proof fn lemma_read_block(
    coding: Coding,
    bytes: Seq<u8>,
    at: nat,
    out: Seq<u8>,
    block: Seq<u8>,
)
    requires
        0 < block.len() <= BLOCK_SIZE,
        out.len() + block.len() <= usize::MAX,
        coding is PeriodEight ==> encoder::has_period_eight(out + block) && (out.len() == 0
            || out.len() >= 8),
        encoder::block_bytes(coding, block, out.len() == 0) is Some,
        sequence::stands(bytes, at, encoder::block_bytes(coding, block, out.len() == 0)->0),
    ensures
        decoder::block(bytes, at, out, block.len()) == Ok::<(Seq<u8>, nat), KrakenError>(
            (
                out + block,
                at + encoder::block_bytes(coding, block, out.len() == 0)->0.len(),
            ),
        ),
{
    reveal(encoder::block_bytes);
    let first = out.len() == 0;
    let written = encoder::block_bytes(coding, block, first)->0;
    lemma_units_size(coding, block, first, 0);
    let memset = (coding is Entropy || coding is Plain) && encoder::is_constant(block);
    if memset && block.len() >= 4 {
        reveal(decoder::block);
        assert(written == encoder::memset_block(block[0]));
        sequence::lemma_stands_index(bytes, at, written, 0);
        sequence::lemma_stands_index(bytes, at, written, 1);
        sequence::lemma_stands_index(bytes, at, written, 2);
        sequence::lemma_stands_index(bytes, at, written, 3);
        sequence::lemma_stands_index(bytes, at, written, 4);
        sequence::lemma_stands_index(bytes, at, written, 5);
        assert(cursor::be24(bytes, at as int + 2) == 0x7_ffff);
        assert(sequence::repeated(block[0], block.len()) =~= block);
    } else if memset || (written == encoder::raw_block(block) && (coding is Plain
        || coding is PeriodEight)) {
        reveal(decoder::block);
        let mark = seq![0xccu8, 0x06u8];
        sequence::lemma_stands_split(bytes, at, mark, block);
        sequence::lemma_stands_index(bytes, at, mark, 0);
        sequence::lemma_stands_index(bytes, at, mark, 1);
    } else {
        let quantum = encoder::units(coding, block, first, 0)->0;
        lemma_read_quantum(coding, bytes, at, out, block, quantum);
    }
}

// ---------------------------------------------------------------------------
// Streams
// ---------------------------------------------------------------------------

/// The blocks from `done` on are read back.
proof fn lemma_read_stream(
    coding: Coding,
    bytes: Seq<u8>,
    at: nat,
    input: Seq<u8>,
    done: nat,
)
    requires
        done == 0 || done >= 8 || done == input.len(),
        done <= input.len() <= usize::MAX,
        coding is PeriodEight ==> encoder::has_period_eight(input),
        encoder::stream(coding, input, done) is Some,
        bytes.len() == at + encoder::stream(coding, input, done)->0.len(),
        sequence::stands(bytes, at, encoder::stream(coding, input, done)->0),
    ensures
        decoder::blocks(bytes, at, input.subrange(0, done as int), input.len()) == Ok::<
            Seq<u8>,
            KrakenError,
        >(input),
    decreases input.len() - done,
{
    let out = input.subrange(0, done as int);
    if done == input.len() {
        assert(out =~= input);
    } else {
        let block = encoder::block_at(input, done);
        let written = encoder::block_bytes(coding, block, done == 0)->0;
        let next = done + block.len();
        let rest = encoder::stream(coding, input, next)->0;
        sequence::lemma_stands_split(bytes, at, written, rest);
        assert(out + block =~= input.subrange(0, next as int));
        if coding is PeriodEight {
            let sub = out + block;
            assert forall|i: int| 8 <= i < sub.len() implies #[trigger] sub[i] == sub[i - 8] by {
                assert(sub[i] == input[i]);
                assert(sub[i - 8] == input[i - 8]);
            }
        }
        lemma_read_block(coding, bytes, at, out, block);
        lemma_read_stream(coding, bytes, at + written.len(), input, next);
    }
}

/// A stream is read back.
pub proof fn law_decode_stream(coding: Coding, input: Seq<u8>)
    requires
        input.len() <= usize::MAX,
        coding is PeriodEight ==> encoder::has_period_eight(input),
        encoder::stream(coding, input, 0) is Some,
    ensures
        decoder::decoded(encoder::stream(coding, input, 0)->0, input.len()) == Ok::<
            Seq<u8>,
            KrakenError,
        >(input),
{
    let bytes = encoder::stream(coding, input, 0)->0;
    assert(bytes.subrange(0, bytes.len() as int) =~= bytes);
    lemma_read_stream(coding, bytes, 0, input, 0);
    assert(input.subrange(0, 0) =~= Seq::<u8>::empty());
}

/// The bytes are written as one of the candidates, and no candidate is shorter.
pub proof fn law_shortest(input: Seq<u8>)
    ensures
        exists|c: Coding| #[trigger]
            encoder::candidate(c, input) == Some(encoder::encoded(input)),
        forall|c: Coding|
            (#[trigger] encoder::candidate(c, input)) is Some ==> encoder::encoded(input).len()
                <= encoder::candidate(c, input)->0.len(),
{
    lemma_always_some(Coding::Plain, input, 0);
    let period = encoder::candidate(Coding::PeriodEight, input);
    let entropy = encoder::candidate(Coding::Entropy, input);
    let greedy = encoder::candidate(Coding::Greedy, input);
    let plain = encoder::candidate(Coding::Plain, input);
    let best = Some(encoder::encoded(input));
    assert(best == period || best == entropy || best == greedy || best == plain);
    assert forall|c: Coding| (#[trigger] encoder::candidate(c, input)) is Some implies
        encoder::encoded(input).len() <= encoder::candidate(c, input)->0.len() by {
        match c {
            Coding::PeriodEight => {},
            Coding::Entropy => {},
            Coding::Greedy => {},
            Coding::Plain => {},
        }
    }
}

/// Decoding what was encoded gives the bytes back.
pub proof fn law_decode_encode(input: Seq<u8>)
    requires
        input.len() <= usize::MAX,
    ensures
        decoder::decoded(encoder::encoded(input), input.len()) == Ok::<Seq<u8>, KrakenError>(input),
{
    law_shortest(input);
    let coding = choose|c: Coding| #[trigger]
        encoder::candidate(c, input) == Some(encoder::encoded(input));
    law_decode_stream(coding, input);
}

} // verus!
