//! What is written as an LZ chunk is read back.

use super::arrays;
use super::bit_laws;
use super::bits;
use super::cursor;
use super::decoder::CHUNK_SIZE;
use super::lz;
use super::lz_encoder;
use super::lz_encoder::LzParse;
use super::readers;
use super::writers;
use crate::sequence;
use vstd::arithmetic::power2::pow2;
use vstd::prelude::*;

verus! {

/// A stored array is read back.
pub proof fn law_stored_array(bytes: Seq<u8>, at: nat, base: nat, content: Seq<u8>)
    requires
        sequence::stands(bytes, at, lz_encoder::stored(content)),
        content.len() <= 0x3_ffff,
    ensures
        arrays::array(bytes, at, base, None, 0) == Ok::<(Seq<u8>, nat), super::KrakenError>(
            (content, at + 3 + content.len()),
        ),
        bytes[at as int] < 0x80,
{
    let header = lz_encoder::be24_bytes(content.len());
    sequence::lemma_stands_split(bytes, at, header, content);
    sequence::lemma_stands_index(bytes, at, header, 0);
    sequence::lemma_stands_index(bytes, at, header, 1);
    sequence::lemma_stands_index(bytes, at, header, 2);
    let n = content.len();
    assert(n / 0x10000 < 256);
    assert(cursor::be24(bytes, at as int) == n);
    assert(arrays::stored_header(bytes, at, base) == Ok::<(nat, nat), super::KrakenError>(
        (n, at + 3),
    ));
    arrays::lemma_stored_array(bytes, at, base, None, 0, n, at + 3);
}

// ---------------------------------------------------------------------------
// Offsets and lengths
// ---------------------------------------------------------------------------

/// Distances as negative offsets.
pub open spec fn negated(distances: Seq<usize>) -> Seq<i32> {
    distances.map_values(|d: usize| (-(d as int)) as i32)
}

pub open spec fn distances_ok(distances: Seq<usize>) -> bool {
    forall|i: int|
        0 <= i < distances.len() ==> lz_encoder::distance_ok(#[trigger] distances[i] as nat)
}

proof fn lemma_offset_bits_prefix(distances: Seq<usize>, i: nat, n: nat, parity: int)
    requires
        i <= n,
    ensures
        sequence::stands(
            lz_encoder::offset_bits(distances, n, parity),
            0,
            lz_encoder::offset_bits(distances, i, parity),
        ),
    decreases n - i,
{
    let part = lz_encoder::offset_bits(distances, i, parity);
    if i == n {
        assert(part.subrange(0, part.len() as int) =~= part);
    } else {
        lemma_offset_bits_prefix(distances, i, (n - 1) as nat, parity);
        let before = lz_encoder::offset_bits(distances, (n - 1) as nat, parity);
        let after = lz_encoder::offset_bits(distances, n, parity);
        assert(after.subrange(0, before.len() as int) =~= before);
        sequence::lemma_stands_within(after, 0, before, 0, part);
    }
}

proof fn lemma_length_bits_prefix(extended: Seq<usize>, i: nat, n: nat, parity: int)
    requires
        i <= n,
    ensures
        sequence::stands(
            lz_encoder::length_bits(extended, n, parity),
            0,
            lz_encoder::length_bits(extended, i, parity),
        ),
    decreases n - i,
{
    let part = lz_encoder::length_bits(extended, i, parity);
    if i == n {
        assert(part.subrange(0, part.len() as int) =~= part);
    } else {
        lemma_length_bits_prefix(extended, i, (n - 1) as nat, parity);
        let before = lz_encoder::length_bits(extended, (n - 1) as nat, parity);
        let after = lz_encoder::length_bits(extended, n, parity);
        assert(after.subrange(0, before.len() as int) =~= before);
        sequence::lemma_stands_within(after, 0, before, 0, part);
    }
}

/// One offset code is read back.
proof fn lemma_read_offset(bits: Seq<bool>, at: nat, other: nat, distance: nat)
    requires
        lz_encoder::distance_ok(distance),
        sequence::stands(
            bits,
            at,
            bits::value_bits(
                lz_encoder::offset_extra(distance),
                lz_encoder::offset_width(distance),
            ),
        ),
        at + lz_encoder::offset_width(distance) + other <= bits.len(),
    ensures
        lz::explicit_offset(bits, at, other, lz_encoder::offset_code(distance), 0, 1) == Some(
            ((-distance) as i32, at + lz_encoder::offset_width(distance)),
        ),
{
    lz_encoder::lemma_offset_width(distance);
    let width = lz_encoder::offset_width(distance);
    let extra = lz_encoder::offset_extra(distance);
    let code = lz_encoder::offset_code(distance);
    let top = (distance + 8) / pow2(width);
    assert(code == 8 * width + top - 8);
    assert(code / 8 == width);
    assert(code % 8 == top - 8);
    bit_laws::lemma_read_value(bits, at, other, extra, width);
    assert((8 + code % 8) * pow2(width) + extra == distance + 8);
}

proof fn lemma_read_offsets(
    front: Seq<bool>,
    back: Seq<bool>,
    distances: Seq<usize>,
    back_start: nat,
    i: nat,
)
    requires
        i <= distances.len(),
        distances_ok(distances),
        sequence::stands(front, 0, lz_encoder::offset_bits(distances, distances.len(), 0)),
        sequence::stands(back, back_start, lz_encoder::offset_bits(distances, distances.len(), 1)),
        front.len() == back.len(),
        lz_encoder::offset_bits(distances, distances.len(), 0).len() + back_start
            + lz_encoder::offset_bits(distances, distances.len(), 1).len() <= front.len(),
    ensures
        lz::explicit_offsets(
            front,
            back,
            lz_encoder::offset_codes(distances),
            seq![],
            1,
            lz_encoder::offset_bits(distances, i, 0).len(),
            back_start + lz_encoder::offset_bits(distances, i, 1).len(),
            negated(distances).subrange(0, i as int),
        ) == Some(
            (
                negated(distances),
                lz_encoder::offset_bits(distances, distances.len(), 0).len(),
                back_start + lz_encoder::offset_bits(distances, distances.len(), 1).len(),
            ),
        ),
    decreases distances.len() - i,
{
    let n = distances.len();
    let part = negated(distances).subrange(0, i as int);
    if i == n {
        assert(part =~= negated(distances));
    } else {
        let d = distances[i as int] as nat;
        assert(lz_encoder::distance_ok(d));
        let piece = bits::value_bits(lz_encoder::offset_extra(d), lz_encoder::offset_width(d));
        bits::lemma_value_bits_len(lz_encoder::offset_extra(d), lz_encoder::offset_width(d));
        let front_at = lz_encoder::offset_bits(distances, i, 0).len();
        let back_at = lz_encoder::offset_bits(distances, i, 1).len();
        lemma_offset_bits_prefix(distances, i, n, 0);
        lemma_offset_bits_prefix(distances, i, n, 1);
        lemma_offset_bits_prefix(distances, i + 1, n, 0);
        lemma_offset_bits_prefix(distances, i + 1, n, 1);
        let code = lz_encoder::offset_codes(distances)[i as int];
        assert(code == lz_encoder::offset_code(d));
        assert(part.push((-d) as i32) =~= negated(distances).subrange(0, i as int + 1));
        if i % 2 == 0 {
            sequence::lemma_stands_within(
                front,
                0,
                lz_encoder::offset_bits(distances, n, 0),
                0,
                lz_encoder::offset_bits(distances, i + 1, 0),
            );
            sequence::lemma_stands_split(
                front,
                0,
                lz_encoder::offset_bits(distances, i, 0),
                piece,
            );
            lemma_read_offset(front, front_at, back_start + back_at, d);
        } else {
            sequence::lemma_stands_within(
                back,
                back_start,
                lz_encoder::offset_bits(distances, n, 1),
                0,
                lz_encoder::offset_bits(distances, i + 1, 1),
            );
            sequence::lemma_stands_split(
                back,
                back_start,
                lz_encoder::offset_bits(distances, i, 1),
                piece,
            );
            lemma_read_offset(back, back_start + back_at, front_at, d);
        }
        lemma_read_offsets(front, back, distances, back_start, i + 1);
    }
}

proof fn lemma_read_lengths(
    front: Seq<bool>,
    back: Seq<bool>,
    extended: Seq<usize>,
    front_start: nat,
    back_start: nat,
    i: nat,
)
    requires
        i <= extended.len(),
        forall|k: int| 0 <= k < extended.len() ==> #[trigger] extended[k] <= 0x2_0000,
        sequence::stands(
            front,
            front_start,
            lz_encoder::length_bits(extended, extended.len(), 0),
        ),
        sequence::stands(back, back_start, lz_encoder::length_bits(extended, extended.len(), 1)),
        front.len() == back.len(),
        front_start + lz_encoder::length_bits(extended, extended.len(), 0).len() + back_start
            + lz_encoder::length_bits(extended, extended.len(), 1).len() <= front.len(),
    ensures
        lz::extended_lengths(
            front,
            back,
            extended.len(),
            front_start + lz_encoder::length_bits(extended, i, 0).len(),
            back_start + lz_encoder::length_bits(extended, i, 1).len(),
            extended.subrange(0, i as int),
        ) == Some(
            (
                extended,
                front_start + lz_encoder::length_bits(extended, extended.len(), 0).len(),
                back_start + lz_encoder::length_bits(extended, extended.len(), 1).len(),
            ),
        ),
    decreases extended.len() - i,
{
    let n = extended.len();
    let part = extended.subrange(0, i as int);
    if i == n {
        assert(part =~= extended);
    } else {
        let e = extended[i as int] as nat;
        assert(extended[i as int] <= 0x2_0000);
        let piece = writers::extended_bits(e);
        let front_at = front_start + lz_encoder::length_bits(extended, i, 0).len();
        let back_at = back_start + lz_encoder::length_bits(extended, i, 1).len();
        lemma_length_bits_prefix(extended, i, n, 0);
        lemma_length_bits_prefix(extended, i, n, 1);
        lemma_length_bits_prefix(extended, i + 1, n, 0);
        lemma_length_bits_prefix(extended, i + 1, n, 1);
        assert(part.push(extended[i as int]) =~= extended.subrange(0, i as int + 1));
        if i % 2 == 0 {
            sequence::lemma_stands_within(
                front,
                front_start,
                lz_encoder::length_bits(extended, n, 0),
                0,
                lz_encoder::length_bits(extended, i + 1, 0),
            );
            sequence::lemma_stands_split(
                front,
                front_start,
                lz_encoder::length_bits(extended, i, 0),
                piece,
            );
            bit_laws::lemma_read_extended(front, front_at, back_at, e);
        } else {
            sequence::lemma_stands_within(
                back,
                back_start,
                lz_encoder::length_bits(extended, n, 1),
                0,
                lz_encoder::length_bits(extended, i + 1, 1),
            );
            sequence::lemma_stands_split(
                back,
                back_start,
                lz_encoder::length_bits(extended, i, 1),
                piece,
            );
            bit_laws::lemma_read_extended(back, back_at, front_at, e);
        }
        lemma_read_lengths(front, back, extended, front_start, back_start, i + 1);
    }
}

proof fn lemma_extended_prefix(longs: Seq<usize>, i: nat, n: nat)
    requires
        i <= n <= longs.len(),
    ensures
        sequence::stands(
            lz_encoder::extended_of(longs.subrange(0, n as int)),
            0,
            lz_encoder::extended_of(longs.subrange(0, i as int)),
        ),
    decreases n - i,
{
    let part = lz_encoder::extended_of(longs.subrange(0, i as int));
    if i == n {
        assert(part.subrange(0, part.len() as int) =~= part);
    } else {
        lemma_extended_prefix(longs, i, (n - 1) as nat);
        let shorter = longs.subrange(0, n as int).drop_last();
        assert(shorter =~= longs.subrange(0, n - 1));
        let before = lz_encoder::extended_of(shorter);
        let after = lz_encoder::extended_of(longs.subrange(0, n as int));
        assert(after.subrange(0, before.len() as int) =~= before);
        sequence::lemma_stands_within(after, 0, before, 0, part);
    }
}

proof fn lemma_expand_lengths(longs: Seq<usize>, i: nat)
    requires
        i <= longs.len(),
        forall|k: int| 0 <= k < longs.len() ==> 3 <= #[trigger] longs[k] <= 0x2_0000,
    ensures
        lz::long_lengths(
            lz_encoder::length_codes(longs),
            lz_encoder::extended_of(longs),
            lz_encoder::extended_of(longs.subrange(0, i as int)).len(),
            longs.subrange(0, i as int),
        ) == Some(longs),
    decreases longs.len() - i,
{
    assert(longs.subrange(0, longs.len() as int) =~= longs);
    if i < longs.len() {
        let l = longs[i as int];
        assert(3 <= l <= 0x2_0000);
        lemma_extended_prefix(longs, i + 1, longs.len());
        let here = longs.subrange(0, i as int + 1);
        assert(here.drop_last() =~= longs.subrange(0, i as int));
        assert(longs.subrange(0, i as int).push(l) =~= here);
        let used = lz_encoder::extended_of(longs.subrange(0, i as int)).len();
        if l >= 258 {
            sequence::lemma_stands_index(
                lz_encoder::extended_of(longs),
                0,
                lz_encoder::extended_of(here),
                used as int,
            );
        }
        lemma_expand_lengths(longs, i + 1);
    }
}

/// Where the bits after the arrays of a chunk stand.
#[verifier::spinoff_prover]
#[verifier::rlimit(50)]
proof fn lemma_suffix_layout(distances: Seq<usize>, extended: Seq<usize>)
    requires
        extended.len() <= 512,
    ensures
        ({
            let gamma = writers::gamma_bits(extended.len() + 1);
            let f1 = lz_encoder::offset_bits(distances, distances.len(), 0);
            let f2 = lz_encoder::length_bits(extended, extended.len(), 0);
            let b1 = lz_encoder::offset_bits(distances, distances.len(), 1);
            let b2 = lz_encoder::length_bits(extended, extended.len(), 1);
            let suffix = lz_encoder::suffix_bytes(distances, extended);
            let front = bits::msb_bits(suffix);
            let back = bits::msb_bits(suffix.reverse());
            &&& sequence::stands(front, 0, f1)
            &&& sequence::stands(front, f1.len(), f2)
            &&& sequence::stands(back, 0, gamma)
            &&& sequence::stands(back, gamma.len(), b1)
            &&& sequence::stands(back, gamma.len() + b1.len(), b2)
            &&& front.len() == 8 * suffix.len()
            &&& back.len() == 8 * suffix.len()
            &&& suffix.len() == bits::bytes_for(f1.len() + f2.len()) + bits::bytes_for(
                gamma.len() + b1.len() + b2.len(),
            )
            &&& gamma.len() > 0
        }),
{
    let gamma = writers::gamma_bits(extended.len() + 1);
    let f1 = lz_encoder::offset_bits(distances, distances.len(), 0);
    let f2 = lz_encoder::length_bits(extended, extended.len(), 0);
    let b1 = lz_encoder::offset_bits(distances, distances.len(), 1);
    let b2 = lz_encoder::length_bits(extended, extended.len(), 1);
    let suffix = lz_encoder::suffix_bytes(distances, extended);
    bit_laws::lemma_msb_ends(f1 + f2, gamma + b1 + b2);
    writers::lemma_gamma_len(extended.len() + 1);
    sequence::lemma_stands_split(bits::msb_bits(suffix), 0, f1, f2);
    assert(gamma + b1 + b2 =~= gamma + (b1 + b2));
    sequence::lemma_stands_split(bits::msb_bits(suffix.reverse()), 0, gamma, b1 + b2);
    sequence::lemma_stands_split(bits::msb_bits(suffix.reverse()), gamma.len(), b1, b2);
}

/// The bits after the arrays of a chunk give its offsets and lengths back.
#[verifier::spinoff_prover]
#[verifier::rlimit(60)]
proof fn lemma_read_suffix(distances: Seq<usize>, longs: Seq<usize>, scale: nat)
    requires
        scale == 1 || distances.len() == 0,
        distances_ok(distances),
        forall|k: int| 0 <= k < longs.len() ==> 3 <= #[trigger] longs[k] <= 0x2_0000,
        lz_encoder::extended_of(longs).len() <= 512,
    ensures
        lz::lz_suffix(
            lz_encoder::suffix_bytes(distances, lz_encoder::extended_of(longs)),
            lz_encoder::offset_codes(distances),
            seq![],
            scale,
            lz_encoder::length_codes(longs),
        ) == Some((negated(distances), longs)),
{
    let extended = lz_encoder::extended_of(longs);
    let gamma = writers::gamma_bits(extended.len() + 1).len();
    let f1 = lz_encoder::offset_bits(distances, distances.len(), 0).len();
    let f2 = lz_encoder::length_bits(extended, extended.len(), 0).len();
    let b1 = lz_encoder::offset_bits(distances, distances.len(), 1).len();
    let b2 = lz_encoder::length_bits(extended, extended.len(), 1).len();
    let suffix = lz_encoder::suffix_bytes(distances, extended);
    let front = bits::msb_bits(suffix);
    let back = bits::msb_bits(suffix.reverse());
    lemma_suffix_layout(distances, extended);
    assert(readers::paired_gamma_minus_one(back, 0, 0) == Some((extended.len(), gamma))) by {
        bit_laws::lemma_read_gamma(back, 0, 0, extended.len() + 1);
    }
    assert(lz::explicit_offsets(
        front,
        back,
        lz_encoder::offset_codes(distances),
        seq![],
        scale,
        0,
        gamma,
        seq![],
    ) == Some((negated(distances), f1, gamma + b1))) by {
        assert(negated(distances).subrange(0, 0) =~= Seq::<i32>::empty());
        if distances.len() > 0 {
            lemma_read_offsets(front, back, distances, gamma, 0);
        } else {
            assert(negated(distances) =~= Seq::<i32>::empty());
        }
    }
    assert(lz::extended_lengths(front, back, extended.len(), f1, gamma + b1, seq![]) == Some(
        (extended, f1 + f2, gamma + b1 + b2),
    )) by {
        lz_encoder::lemma_extended_of(longs, 0x2_0000);
        assert(extended.subrange(0, 0) =~= Seq::<usize>::empty());
        lemma_read_lengths(front, back, extended, f1, gamma + b1, 0);
    }
    assert(lz::long_lengths(lz_encoder::length_codes(longs), extended, 0, seq![]) == Some(longs))
        by {
        assert(longs.subrange(0, 0) =~= Seq::<usize>::empty());
        lemma_expand_lengths(longs, 0);
    }
    lemma_suffix_steps(
        suffix,
        lz_encoder::offset_codes(distances),
        scale,
        lz_encoder::length_codes(longs),
        extended,
        negated(distances),
        longs,
        gamma,
        f1,
        gamma + b1,
        f1 + f2,
        gamma + b1 + b2,
    );
}

proof fn lemma_suffix_steps(
    suffix: Seq<u8>,
    codes: Seq<u8>,
    scale: nat,
    packed: Seq<u8>,
    extended: Seq<usize>,
    offsets: Seq<i32>,
    longs: Seq<usize>,
    back1: nat,
    front2: nat,
    back2: nat,
    front3: nat,
    back3: nat,
)
    requires
        suffix.len() > 0,
        extended.len() <= 512,
        readers::paired_gamma_minus_one(bits::msb_bits(suffix.reverse()), 0, 0) == Some(
            (extended.len(), back1),
        ),
        lz::explicit_offsets(
            bits::msb_bits(suffix),
            bits::msb_bits(suffix.reverse()),
            codes,
            seq![],
            scale,
            0,
            back1,
            seq![],
        ) == Some((offsets, front2, back2)),
        lz::extended_lengths(
            bits::msb_bits(suffix),
            bits::msb_bits(suffix.reverse()),
            extended.len(),
            front2,
            back2,
            seq![],
        ) == Some((extended, front3, back3)),
        readers::no_unread_bytes(8 * suffix.len(), front3, back3),
        lz::long_lengths(packed, extended, 0, seq![]) == Some(longs),
    ensures
        lz::lz_suffix(suffix, codes, seq![], scale, packed) == Some((offsets, longs)),
{
    reveal(lz::lz_suffix);
}

// ---------------------------------------------------------------------------
// Commands
// ---------------------------------------------------------------------------

/// The decoder's recent offsets for the writer's recent distances.
pub open spec fn negated_recent(recent: (nat, nat, nat)) -> (i32, i32, i32) {
    ((-recent.0) as i32, (-recent.1) as i32, (-recent.2) as i32)
}

/// Running what was written of a chunk so far gives the chunk so far.
pub open spec fn parse_ok(parse: LzParse, chunk: Seq<u8>, start: nat, out: Seq<u8>) -> bool {
    &&& chunk.len() <= CHUNK_SIZE
    &&& start <= parse.literal_start <= parse.position <= chunk.len()
    &&& distances_ok(parse.distances)
    &&& parse.distances.len() <= parse.commands.len()
    &&& 4 * parse.commands.len() <= parse.literal_start - start
    &&& 4 * parse.longs.len() <= parse.literal_start - start
    &&& 258 * lz_encoder::extended_of(parse.longs).len() <= parse.literal_start - start
    &&& forall|i: int|
        0 <= i < parse.longs.len() ==> 3 <= #[trigger] parse.longs[i] <= 0x2_0000
    &&& parse.literals.len() <= parse.literal_start - start
    &&& 8 <= parse.recent.0 <= 0x3fff
    &&& 8 <= parse.recent.1 <= 0x3fff
    &&& 8 <= parse.recent.2 <= 0x3fff
    &&& lz::lz_steps(
        lz::lz_start(out + chunk.subrange(0, start as int)),
        parse.literals,
        parse.commands,
        negated(parse.distances),
        parse.longs,
        1,
        out.len() + chunk.len(),
        parse.commands.len(),
    ) matches Some(state) && ran(state, parse, chunk, out)
}

/// The decoder has run what was written so far.
pub open spec fn ran(state: lz::LzState, parse: LzParse, chunk: Seq<u8>, out: Seq<u8>) -> bool {
    &&& state.out == out + chunk.subrange(0, parse.literal_start as int)
    &&& state.literal == parse.literals.len()
    &&& state.offset == parse.distances.len()
    &&& state.length == parse.longs.len()
    &&& state.recent == negated_recent(parse.recent)
}

proof fn lemma_step_extend(
    state: lz::LzState,
    literals: Seq<u8>,
    offsets: Seq<i32>,
    lengths: Seq<usize>,
    more_literals: Seq<u8>,
    more_offsets: Seq<i32>,
    more_lengths: Seq<usize>,
    command: u8,
    end: nat,
)
    requires
        lz::lz_step(state, literals, offsets, lengths, command, 1, end) is Some,
    ensures
        lz::lz_step(
            state,
            literals + more_literals,
            offsets + more_offsets,
            lengths + more_lengths,
            command,
            1,
            end,
        ) == lz::lz_step(state, literals, offsets, lengths, command, 1, end),
{
    let (count, length) = lz::lz_literal_count(state, lengths, command)->Some_0;
    assert((literals + more_literals).subrange(
        state.literal as int,
        (state.literal + count) as int,
    ) =~= literals.subrange(state.literal as int, (state.literal + count) as int));
}

proof fn lemma_steps_extend(
    start: lz::LzState,
    literals: Seq<u8>,
    commands: Seq<u8>,
    offsets: Seq<i32>,
    lengths: Seq<usize>,
    more_literals: Seq<u8>,
    more_commands: Seq<u8>,
    more_offsets: Seq<i32>,
    more_lengths: Seq<usize>,
    end: nat,
    n: nat,
)
    requires
        n <= commands.len(),
        lz::lz_steps(start, literals, commands, offsets, lengths, 1, end, n) is Some,
    ensures
        lz::lz_steps(
            start,
            literals + more_literals,
            commands + more_commands,
            offsets + more_offsets,
            lengths + more_lengths,
            1,
            end,
            n,
        ) == lz::lz_steps(start, literals, commands, offsets, lengths, 1, end, n),
    decreases n,
{
    if n > 0 {
        lemma_steps_extend(
            start,
            literals,
            commands,
            offsets,
            lengths,
            more_literals,
            more_commands,
            more_offsets,
            more_lengths,
            end,
            (n - 1) as nat,
        );
        let state = lz::lz_steps(
            start,
            literals,
            commands,
            offsets,
            lengths,
            1,
            end,
            (n - 1) as nat,
        )->Some_0;
        lemma_step_extend(
            state,
            literals,
            offsets,
            lengths,
            more_literals,
            more_offsets,
            more_lengths,
            commands[n - 1],
            end,
        );
    }
}

/// Copying a match continues the chunk.
proof fn lemma_copy_match(out: Seq<u8>, chunk: Seq<u8>, at: nat, distance: nat, count: nat)
    requires
        0 < distance <= at,
        at + count <= chunk.len(),
        forall|k: int| 0 <= k < count ==> chunk[at - distance + k] == #[trigger] chunk[at + k],
    ensures
        lz::copy_back(out + chunk.subrange(0, at as int), distance, count) == out + chunk.subrange(
            0,
            (at + count) as int,
        ),
    decreases count,
{
    if count > 0 {
        lemma_copy_match(out, chunk, at, distance, (count - 1) as nat);
        let before = out + chunk.subrange(0, at + count - 1);
        assert(chunk[at - distance + (count - 1)] == chunk[at + (count - 1)]);
        assert(before[before.len() - distance] == chunk[at - distance + (count - 1)]);
        assert(before.push(chunk[at + count - 1]) =~= out + chunk.subrange(
            0,
            (at + count) as int,
        ));
    }
}

proof fn lemma_extended_sum(longs: Seq<usize>, literal_length: nat, match_length: nat)
    requires
        literal_length <= CHUNK_SIZE,
        4 <= match_length <= CHUNK_SIZE,
    ensures
        ({
            let after = lz_encoder::extended_of(
                longs + lz_encoder::long_counts(literal_length, match_length),
            ).len();
            258 * after <= 258 * lz_encoder::extended_of(longs).len() + literal_length
                + match_length
        }),
{
    let counts = lz_encoder::long_counts(literal_length, match_length);
    let all = longs + counts;
    if counts.len() == 0 {
        assert(all =~= longs);
    } else if counts.len() == 1 {
        assert(all.drop_last() =~= longs);
    } else {
        assert(all.drop_last().drop_last() =~= longs);
        assert(all.drop_last().last() == literal_length);
        reveal_with_fuel(lz_encoder::extended_of, 3);
    }
}

/// The parts of a command's byte.
proof fn lemma_command_byte(index: nat, literal_length: nat, match_length: nat)
    requires
        index <= 3,
        4 <= match_length,
    ensures
        ({
            let command = lz_encoder::command_byte(index, literal_length, match_length);
            &&& command / 64 == index
            &&& command % 4 == (if literal_length < 3 {
                literal_length as int
            } else {
                3
            })
            &&& (command / 4) % 16 == (if match_length <= 16 {
                match_length - 2
            } else {
                15
            })
        }),
{
}

/// Running one more command continues the chunk.
#[verifier::spinoff_prover]
#[verifier::rlimit(50)]
proof fn lemma_run_command(
    state: lz::LzState,
    parse: LzParse,
    chunk: Seq<u8>,
    out: Seq<u8>,
    index: nat,
    distance: nat,
    length: nat,
)
    requires
        parse.literal_start <= parse.position <= chunk.len() <= CHUNK_SIZE,
        ran(state, parse, chunk, out),
        index <= 3,
        lz_encoder::distance_ok(distance),
        index < 3 ==> distance == (if index == 0 {
            parse.recent.0
        } else if index == 1 {
            parse.recent.1
        } else {
            parse.recent.2
        }),
        4 <= length,
        lz_encoder::match_ok(chunk, parse.position, (distance, length)),
    ensures
        ({
            let next = lz_encoder::emit(parse, chunk, index, distance, length);
            lz::lz_step(
                state,
                next.literals,
                negated(next.distances),
                next.longs,
                next.commands.last(),
                1,
                out.len() + chunk.len(),
            ) matches Some(after) && ran(after, next, chunk, out)
        }),
{
    let next = lz_encoder::emit(parse, chunk, index, distance, length);
    let literal_length = (parse.position - parse.literal_start) as nat;
    let command = next.commands.last();
    let end = out.len() + chunk.len();
    lemma_command_byte(index, literal_length, length);
    assert(command == lz_encoder::command_byte(index, literal_length, length));
    let counts = lz_encoder::long_counts(literal_length, length);
    let s1 = lz::LzState {
        length: state.length + if literal_length < 3 {
            0nat
        } else {
            1nat
        },
        ..state
    };
    assert(lz::lz_literal_count(state, next.longs, command) == Some((literal_length, s1.length)))
        by {
        if literal_length >= 3 {
            assert(next.longs[state.length as int] == counts[0]);
        }
    }
    let source = chunk.subrange(parse.literal_start as int, parse.position as int);
    let s2 = lz::LzState {
        out: state.out + source,
        literal: state.literal + literal_length,
        ..s1
    };
    assert(lz::lz_literals(s1, next.literals, literal_length, 1, end) == Some(s2)) by {
        assert(next.literals.subrange(
            state.literal as int,
            (state.literal + literal_length) as int,
        ) =~= source);
    }
    assert(s2.out =~= out + chunk.subrange(0, parse.position as int));
    let s3 = lz::LzState {
        last: (-distance) as i32,
        recent: negated_recent(next.recent),
        offset: next.distances.len(),
        ..s2
    };
    assert(lz::lz_offset(s2, negated(next.distances), command) == Some(s3)) by {
        if index == 3 {
            assert(negated(next.distances)[parse.distances.len() as int] == (-distance) as i32);
        }
    }
    let s4 = lz::LzState { length: next.longs.len(), ..s3 };
    assert(lz::lz_match_count(s3, next.longs, command) == Some((length, s4.length))) by {
        if length > 16 {
            assert(next.longs[s3.length as int] == counts[counts.len() - 1]);
        }
    }
    lemma_copy_match(out, chunk, parse.position, distance, length);
    let s5 = lz::LzState {
        out: out + chunk.subrange(0, (parse.position + length) as int),
        ..s4
    };
    assert(lz::lz_match(s4, length, end) == Some(s5));
}

/// Writing a command keeps what was written in order.
proof fn lemma_emit_ok(
    parse: LzParse,
    chunk: Seq<u8>,
    start: nat,
    out: Seq<u8>,
    index: nat,
    distance: nat,
    length: nat,
)
    requires
        parse_ok(parse, chunk, start, out),
        index <= 3,
        index == 3 ==> lz_encoder::distance_ok(distance),
        index < 3 ==> distance == (if index == 0 {
            parse.recent.0
        } else if index == 1 {
            parse.recent.1
        } else {
            parse.recent.2
        }),
        4 <= length,
        lz_encoder::match_ok(chunk, parse.position, (distance, length)),
    ensures
        parse_ok(lz_encoder::emit(parse, chunk, index, distance, length), chunk, start, out),
{
    let next = lz_encoder::emit(parse, chunk, index, distance, length);
    let literal_length = (parse.position - parse.literal_start) as nat;
    let first = lz::lz_start(out + chunk.subrange(0, start as int));
    let end = out.len() + chunk.len();
    let state = lz::lz_steps(
        first,
        parse.literals,
        parse.commands,
        negated(parse.distances),
        parse.longs,
        1,
        end,
        parse.commands.len(),
    )->Some_0;
    let more_distances = if index == 3 {
        seq![distance as usize]
    } else {
        seq![]
    };
    assert(next.distances =~= parse.distances + more_distances);
    assert(negated(next.distances) =~= negated(parse.distances) + negated(more_distances));
    assert(next.commands =~= parse.commands + seq![next.commands.last()]);
    lemma_steps_extend(
        first,
        parse.literals,
        parse.commands,
        negated(parse.distances),
        parse.longs,
        chunk.subrange(parse.literal_start as int, parse.position as int),
        seq![next.commands.last()],
        negated(more_distances),
        lz_encoder::long_counts(literal_length, length),
        end,
        parse.commands.len(),
    );
    lemma_run_command(state, parse, chunk, out, index, distance, length);
    lemma_extended_sum(parse.longs, literal_length, length);
    assert forall|i: int| 0 <= i < next.longs.len() implies 3 <= #[trigger] next.longs[i]
        <= 0x2_0000 by {
        if i < parse.longs.len() {
            assert(next.longs[i] == parse.longs[i]);
        }
    }
    assert forall|i: int| 0 <= i < next.distances.len() implies lz_encoder::distance_ok(
        #[trigger] next.distances[i] as nat,
    ) by {
        if i < parse.distances.len() {
            assert(next.distances[i] == parse.distances[i]);
        }
    }
}

proof fn lemma_parse_start_ok(chunk: Seq<u8>, start: nat, out: Seq<u8>)
    requires
        start <= chunk.len() <= CHUNK_SIZE,
    ensures
        parse_ok(lz_encoder::parse_start(start), chunk, start, out),
{
    assert(negated(Seq::<usize>::empty()) =~= Seq::<i32>::empty());
}

proof fn lemma_greedy_parse_ok(parse: LzParse, chunk: Seq<u8>, start: nat, out: Seq<u8>)
    requires
        parse_ok(parse, chunk, start, out),
    ensures
        parse_ok(lz_encoder::greedy_parse(parse, chunk), chunk, start, out),
    decreases chunk.len() - parse.position,
{
    if parse.position + 4 <= chunk.len() {
        let next = lz_encoder::greedy_step(parse, chunk);
        let (distance, length) = lz_encoder::best_match(chunk, parse.position, parse.recent);
        lz_encoder::lemma_best_match(chunk, parse.position, parse.recent);
        lz_encoder::lemma_greedy_step(parse, chunk);
        if length >= 4 {
            lemma_emit_ok(
                parse,
                chunk,
                start,
                out,
                lz_encoder::recent_index(parse.recent, distance),
                distance,
                length,
            );
        }
        lemma_greedy_parse_ok(next, chunk, start, out);
    }
}

proof fn lemma_stable_parse_ok(
    parse: LzParse,
    chunk: Seq<u8>,
    distance: nat,
    start: nat,
    out: Seq<u8>,
)
    requires
        parse_ok(parse, chunk, start, out),
        lz_encoder::distance_ok(distance),
        parse.commands.len() > 0 ==> parse.recent.0 == distance,
    ensures
        parse_ok(lz_encoder::stable_parse(parse, chunk, distance), chunk, start, out),
    decreases chunk.len() - parse.position,
{
    if parse.position + 4 <= chunk.len() {
        let next = lz_encoder::stable_step(parse, chunk, distance);
        let found = lz_encoder::match_at(chunk, parse.position, distance);
        lz_encoder::lemma_match_at(chunk, parse.position, distance);
        if found.1 >= 4 {
            lemma_emit_ok(
                parse,
                chunk,
                start,
                out,
                if parse.commands.len() == 0 {
                    3
                } else {
                    0
                },
                distance,
                found.1,
            );
        }
        lemma_stable_parse_ok(next, chunk, distance, start, out);
    }
}

/// Running all commands and the literals that are left gives the chunk.
proof fn lemma_run_all(parse: LzParse, chunk: Seq<u8>, start: nat, out: Seq<u8>)
    requires
        parse_ok(parse, chunk, start, out),
    ensures
        lz::lz_commands(
            out + chunk.subrange(0, start as int),
            out.len() + chunk.len(),
            parse.literals + chunk.subrange(parse.literal_start as int, chunk.len() as int),
            parse.commands,
            negated(parse.distances),
            parse.longs,
            1,
        ) == Some(out + chunk),
{
    let first = lz::lz_start(out + chunk.subrange(0, start as int));
    let end = out.len() + chunk.len();
    let rest = chunk.subrange(parse.literal_start as int, chunk.len() as int);
    lemma_steps_extend(
        first,
        parse.literals,
        parse.commands,
        negated(parse.distances),
        parse.longs,
        rest,
        seq![],
        seq![],
        seq![],
        end,
        parse.commands.len(),
    );
    assert(parse.commands + Seq::<u8>::empty() =~= parse.commands);
    assert(negated(parse.distances) + Seq::<i32>::empty() =~= negated(parse.distances));
    assert(parse.longs + Seq::<usize>::empty() =~= parse.longs);
    let all = parse.literals + rest;
    let n = parse.literals.len() as int;
    assert(all.subrange(n, all.len() as int) =~= rest);
    assert((out + chunk.subrange(0, parse.literal_start as int)) + rest =~= out + chunk);
}

// ---------------------------------------------------------------------------
// Chunks
// ---------------------------------------------------------------------------

/// Side streams that stand one after the other.
pub proof fn lemma_read_streams(
    payload: Seq<u8>,
    at: nat,
    base: nat,
    literals: Seq<u8>,
    commands: Seq<u8>,
    scale_byte: Seq<u8>,
    distances: Seq<usize>,
    longs: Seq<usize>,
    size: nat,
)
    requires
        size <= CHUNK_SIZE,
        sequence::stands(
            payload,
            at,
            lz_encoder::stored(literals) + lz_encoder::stored(commands) + scale_byte
                + lz_encoder::stored(lz_encoder::offset_codes(distances)) + lz_encoder::stored(
                lz_encoder::length_codes(longs),
            ) + lz_encoder::suffix_bytes(distances, lz_encoder::extended_of(longs)),
        ),
        payload.len() == at + lz_encoder::stored(literals).len() + lz_encoder::stored(
            commands,
        ).len() + scale_byte.len() + lz_encoder::stored(
            lz_encoder::offset_codes(distances),
        ).len() + lz_encoder::stored(lz_encoder::length_codes(longs)).len()
            + lz_encoder::suffix_bytes(distances, lz_encoder::extended_of(longs)).len(),
        literals.len() <= size,
        4 * commands.len() <= size,
        distances.len() <= commands.len(),
        4 * longs.len() <= size,
        scale_byte == seq![128u8] || (scale_byte == Seq::<u8>::empty() && distances.len() == 0),
        distances_ok(distances),
        forall|k: int| 0 <= k < longs.len() ==> 3 <= #[trigger] longs[k] <= 0x2_0000,
        lz_encoder::extended_of(longs).len() <= 512,
    ensures
        lz::lz_streams(payload, at, base, size) == Ok::<lz::LzStreams, super::KrakenError>(
            lz::LzStreams { literals, commands, offsets: negated(distances), lengths: longs },
        ),
{
    let s1 = lz_encoder::stored(literals);
    let s2 = lz_encoder::stored(commands);
    let s4 = lz_encoder::stored(lz_encoder::offset_codes(distances));
    let s5 = lz_encoder::stored(lz_encoder::length_codes(longs));
    let s6 = lz_encoder::suffix_bytes(distances, lz_encoder::extended_of(longs));
    let at2 = at + s1.len();
    let at3 = at2 + s2.len();
    let at4 = at3 + scale_byte.len();
    let at5 = at4 + s4.len();
    let at6 = at5 + s5.len();
    assert(s1 + s2 + scale_byte + s4 + s5 + s6 =~= s1 + (s2 + (scale_byte + (s4 + (s5 + s6)))));
    sequence::lemma_stands_split(payload, at, s1, s2 + (scale_byte + (s4 + (s5 + s6))));
    sequence::lemma_stands_split(payload, at2, s2, scale_byte + (s4 + (s5 + s6)));
    sequence::lemma_stands_split(payload, at3, scale_byte, s4 + (s5 + s6));
    sequence::lemma_stands_split(payload, at4, s4, s5 + s6);
    sequence::lemma_stands_split(payload, at5, s5, s6);
    law_stored_array(payload, at, base, literals);
    law_stored_array(payload, at2, base, commands);
    law_stored_array(payload, at4, base, lz_encoder::offset_codes(distances));
    law_stored_array(payload, at5, base, lz_encoder::length_codes(longs));
    let scale: nat = if scale_byte.len() == 0 {
        0
    } else {
        1
    };
    if scale_byte.len() > 0 {
        sequence::lemma_stands_index(payload, at3, scale_byte, 0);
    }
    assert(lz::offset_scale(payload, at3) == (scale, at4));
    assert(payload.subrange(at6 as int, payload.len() as int) =~= s6);
    lemma_read_suffix(distances, longs, scale);
    let result = Ok::<lz::LzStreams, super::KrakenError>(
        lz::LzStreams { literals, commands, offsets: negated(distances), lengths: longs },
    );
    assert(lz::lz_streams_after(payload, at3, base, size, literals, commands) == result);
}

/// A chunk that was parsed to its end is read back.
proof fn lemma_read_chunk(parse: LzParse, chunk: Seq<u8>, start: nat, out: Seq<u8>, base: nat)
    requires
        parse_ok(parse, chunk, start, out),
        start == if out.len() == 0 {
            8nat
        } else {
            0nat
        },
        out.len() + chunk.len() <= usize::MAX,
    ensures
        lz::lz_chunk(
            lz_encoder::chunk_bytes(chunk, parse, start),
            chunk.len(),
            out,
            1,
            base,
        ) == Ok::<Seq<u8>, super::KrakenError>(out + chunk),
{
    reveal(lz::lz_chunk);
    let payload = lz_encoder::chunk_bytes(chunk, parse, start);
    let history = chunk.subrange(0, start as int);
    let literals = parse.literals + chunk.subrange(
        parse.literal_start as int,
        chunk.len() as int,
    );
    let s1 = lz_encoder::stored(literals);
    let s2 = lz_encoder::stored(parse.commands);
    let s4 = lz_encoder::stored(lz_encoder::offset_codes(parse.distances));
    let s5 = lz_encoder::stored(lz_encoder::length_codes(parse.longs));
    let s6 = lz_encoder::suffix_bytes(parse.distances, lz_encoder::extended_of(parse.longs));
    let rest = s1 + s2 + seq![128u8] + s4 + s5 + s6;
    assert(payload =~= history + rest);
    assert(payload.subrange(start as int, payload.len() as int) =~= rest);
    assert(payload.subrange(0, start as int) =~= history);
    lemma_read_streams(
        payload,
        start,
        base,
        literals,
        parse.commands,
        seq![128u8],
        parse.distances,
        parse.longs,
        chunk.len(),
    );
    lemma_run_all(parse, chunk, start, out);
}

/// A chunk that was written with its best matches is read back.
pub proof fn law_greedy_chunk(chunk: Seq<u8>, out: Seq<u8>, base: nat)
    requires
        chunk.len() <= CHUNK_SIZE,
        out.len() + chunk.len() <= usize::MAX,
    ensures
        lz_encoder::greedy_chunk(chunk, out.len() == 0) matches Some(bytes) ==> lz::lz_chunk(
            bytes,
            chunk.len(),
            out,
            1,
            base,
        ) == Ok::<Seq<u8>, super::KrakenError>(out + chunk) && bytes.len() < chunk.len(),
{
    reveal(lz_encoder::greedy_chunk);
    let start = lz_encoder::history_len(out.len() == 0);
    if chunk.len() >= start + 8 {
        lemma_parse_start_ok(chunk, start, out);
        let parse = lz_encoder::parse_start(start);
        lemma_greedy_parse_ok(parse, chunk, start, out);
        lemma_read_chunk(lz_encoder::greedy_parse(parse, chunk), chunk, start, out, base);
    }
}

proof fn lemma_stable_distance_ok(chunk: Seq<u8>, start: nat, at: nat)
    ensures
        lz_encoder::stable_distance(chunk, start, at) matches Some(d) ==> lz_encoder::distance_ok(
            d,
        ),
    decreases chunk.len() - at,
{
    if at + 4 <= chunk.len() {
        lemma_stable_distance_ok(chunk, start, at + 1);
    }
}

/// A chunk that was written with matches at one distance is read back.
pub proof fn law_stable_chunk(chunk: Seq<u8>, out: Seq<u8>, base: nat)
    requires
        chunk.len() <= CHUNK_SIZE,
        out.len() + chunk.len() <= usize::MAX,
    ensures
        lz_encoder::stable_chunk(chunk, out.len() == 0) matches Some(bytes) ==> lz::lz_chunk(
            bytes,
            chunk.len(),
            out,
            1,
            base,
        ) == Ok::<Seq<u8>, super::KrakenError>(out + chunk) && bytes.len() < chunk.len(),
{
    reveal(lz_encoder::stable_chunk);
    let start = lz_encoder::history_len(out.len() == 0);
    if chunk.len() >= start + 8 {
        lemma_stable_distance_ok(chunk, start, 0);
        match lz_encoder::stable_distance(chunk, start, 0) {
            None => {},
            Some(distance) => {
                lemma_parse_start_ok(chunk, start, out);
                let parse = lz_encoder::parse_start(start);
                lemma_stable_parse_ok(parse, chunk, distance, start, out);
                lemma_read_chunk(
                    lz_encoder::stable_parse(parse, chunk, distance),
                    chunk,
                    start,
                    out,
                    base,
                );
            },
        }
    }
}

} // verus!
