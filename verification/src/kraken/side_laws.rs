//! What the side streams of a chunk spell.

use crate::kraken::arrays;
use crate::kraken::bit_laws;
use crate::kraken::bits;
use crate::kraken::lz;
use crate::kraken::readers;
use crate::kraken::KrakenError;
use crate::sequence;
use vstd::arithmetic::power2::{lemma2_to64, lemma_pow2_adds, lemma_pow2_pos, lemma_pow2_unfold, pow2};
use vstd::prelude::*;

verus! {

// ---------------------------------------------------------------------------
// Lengths
// ---------------------------------------------------------------------------

/// The packed byte of a length: what it is above three, or 255.
pub open spec fn packed(length: usize) -> u8 {
    if length < 258 {
        (length - 3) as u8
    } else {
        255
    }
}

/// What the lengths of at least 258 are above that.
pub open spec fn extended(lengths: Seq<usize>) -> Seq<usize>
    decreases lengths.len(),
{
    if lengths.len() == 0 {
        Seq::empty()
    } else if lengths.last() >= 258 {
        extended(lengths.drop_last()).push((lengths.last() - 258) as usize)
    } else {
        extended(lengths.drop_last())
    }
}

proof fn lemma_extended(lengths: Seq<usize>, k: nat)
    requires
        k <= lengths.len(),
    ensures
        extended(lengths.subrange(0, k as int)).len() <= extended(lengths).len(),
        extended(lengths).subrange(
            0,
            extended(lengths.subrange(0, k as int)).len() as int,
        ) == extended(lengths.subrange(0, k as int)),
    decreases lengths.len(),
{
    if k == lengths.len() {
        assert(lengths.subrange(0, k as int) =~= lengths);
        let all = extended(lengths);
        assert(all.subrange(0, all.len() as int) =~= all);
    } else {
        let less = lengths.drop_last();
        lemma_extended(less, k);
        assert(less.subrange(0, k as int) =~= lengths.subrange(0, k as int));
        let n = extended(lengths.subrange(0, k as int)).len() as int;
        assert(extended(lengths).subrange(0, n) =~= extended(less).subrange(0, n));
    }
}

proof fn lemma_lengths(lengths: Seq<usize>, bytes: Seq<u8>, k: nat)
    requires
        k <= lengths.len(),
        bytes == Seq::new(lengths.len(), |i: int| packed(lengths[i])),
        forall|i: int| 0 <= i < lengths.len() ==> #[trigger] lengths[i] >= 3,
    ensures
        lz::long_lengths(
            bytes,
            extended(lengths),
            extended(lengths.subrange(0, k as int)).len(),
            lengths.subrange(0, k as int),
        ) == Some(lengths),
    decreases lengths.len() - k,
{
    let front = lengths.subrange(0, k as int);
    if k == lengths.len() {
        assert(front =~= lengths);
    } else {
        let more = lengths.subrange(0, k as int + 1);
        let length = lengths[k as int];
        assert(more.drop_last() =~= front);
        assert(more.last() == length);
        assert(front.push(length) =~= more);
        assert(bytes[k as int] == packed(length));
        lemma_extended(lengths, k + 1);
        lemma_extended(lengths, k);
        let used = extended(front).len();
        if length >= 258 {
            assert(extended(lengths).subrange(0, used as int + 1)[used as int] == extended(
                lengths,
            )[used as int]);
        }
        lemma_lengths(lengths, bytes, k + 1);
    }
}

/// Long lengths are read back from their packed bytes: each counts from three on, and one
/// of 255 takes the next extended length, which counts from 258 on.
pub proof fn law_lengths_read(lengths: Seq<usize>)
    requires
        forall|i: int| 0 <= i < lengths.len() ==> #[trigger] lengths[i] >= 3,
    ensures
        lz::long_lengths(
            Seq::new(lengths.len(), |i: int| packed(lengths[i])),
            extended(lengths),
            0,
            Seq::empty(),
        ) == Some(lengths),
{
    let none = lengths.subrange(0, 0);
    assert(none =~= Seq::<usize>::empty());
    lemma_lengths(lengths, Seq::new(lengths.len(), |i: int| packed(lengths[i])), 0);
}

// ---------------------------------------------------------------------------
// Offsets
// ---------------------------------------------------------------------------

/// A distance is written as a byte with its tier and its low four bits, and the other
/// bits, of which a tier has four more than its number. The tiers begin at eight, and each
/// has 256 times a power of two distances.
pub proof fn law_distance_read(
    stream: Seq<bool>,
    at: nat,
    other: nat,
    tier: nat,
    low: nat,
    extra: nat,
    digit: u8,
)
    requires
        tier < 16,
        low < 16,
        extra < pow2(tier + 4),
        sequence::stands(stream, at, bits::value_bits(extra, tier + 4)),
        at + other + tier + 4 <= stream.len(),
    ensures
        lz::explicit_offset(stream, at, other, (16 * tier + low) as u8, digit, 0) == Some(
            (
                (-(8 + 256 * (pow2(tier) - 1) + 16 * extra + low)) as i32,
                at + tier + 4,
            ),
        ),
{
    let byte = (16 * tier + low) as u8;
    assert(byte / 16 == tier && byte % 16 == low);
    bit_laws::lemma_read_value(stream, at, other, extra, tier + 4);
    lemma_pow2_pos(tier);
    let value = 8 + (pow2(tier) - 1) * 256 + low + 16 * extra;
    assert(value == 8 + 256 * (pow2(tier) - 1) + 16 * extra + low);
    assert(readers::distance_value(byte, extra) == value);
}

/// Behind the last distance of a tier comes the first of the next.
pub proof fn law_distance_tiers(tier: nat)
    requires
        tier < 15,
    ensures
        readers::distance_value(0, 0) == 8,
        readers::distance_value((16 * tier + 15) as u8, (pow2(tier + 4) - 1) as nat) + 1
            == readers::distance_value((16 * (tier + 1)) as u8, 0),
{
    lemma2_to64();
    lemma_pow2_pos(tier + 4);
    lemma_pow2_adds(tier, 4);
    lemma_pow2_unfold(tier + 1);
    let byte = (16 * tier + 15) as u8;
    let next = (16 * (tier + 1)) as u8;
    assert(byte / 16 == tier && byte % 16 == 15);
    assert(next / 16 == tier + 1 && next % 16 == 0);
}

/// A scaled offset is written as a byte with the number of its extra bits and the three
/// bits before them, behind a one. What they spell counts from eight on in steps of the
/// scale, and the low digit is added.
pub proof fn law_scaled_read(
    stream: Seq<bool>,
    at: nat,
    other: nat,
    count: nat,
    high: nat,
    extra: nat,
    scale: nat,
    digit: u8,
)
    requires
        count <= 26,
        high < 8,
        extra < pow2(count),
        scale > 0,
        sequence::stands(stream, at, bits::value_bits(extra, count)),
        at + other + count <= stream.len(),
        (8 + high) * pow2(count) + extra <= i32::MAX,
        0 < scale * ((8 + high) * pow2(count) + extra - 8) + digit <= i32::MAX,
    ensures
        lz::explicit_offset(stream, at, other, (8 * count + high) as u8, digit, scale) == Some(
            (
                (-(scale * ((8 + high) * pow2(count) + extra - 8) + digit)) as i32,
                at + count,
            ),
        ),
{
    let byte = (8 * count + high) as u8;
    assert(byte / 8 == count && byte % 8 == high);
    bit_laws::lemma_read_value(stream, at, other, extra, count);
    let spelled = (8 + high) * pow2(count) + extra;
    let raw = 8 - spelled;
    assert(raw * scale == -(scale * (spelled - 8))) by (nonlinear_arith)
        requires
            raw == 8 - spelled,
    ;
}

// ---------------------------------------------------------------------------
// Streams
// ---------------------------------------------------------------------------

/// The streams of a chunk stand behind each other: literals, commands, a byte with the
/// scale where it is marked, offsets, their low digits where the scale is above one, and
/// lengths.
pub proof fn law_streams_in_order(
    bytes: Seq<u8>,
    at: nat,
    base: nat,
    size: nat,
    literals: (Seq<u8>, nat),
    commands: (Seq<u8>, nat),
    scale: nat,
    offsets: (Seq<u8>, nat),
    low: (Seq<u8>, nat),
    lengths: (Seq<u8>, nat),
    spelled: (Seq<i32>, Seq<usize>),
)
    requires
        at < bytes.len(),
        bytes[at as int] < 0x80,
        arrays::array(bytes, at, base, None, 0) == Ok::<(Seq<u8>, nat), KrakenError>(literals),
        arrays::array(bytes, literals.1, base, None, 0) == Ok::<(Seq<u8>, nat), KrakenError>(
            commands,
        ),
        commands.0.len() <= size,
        commands.1 < bytes.len(),
        if bytes[commands.1 as int] >= 0x80 {
            scale == bytes[commands.1 as int] - 0x7f && arrays::array(
                bytes,
                commands.1 + 1,
                base,
                None,
                0,
            ) == Ok::<(Seq<u8>, nat), KrakenError>(offsets)
        } else {
            scale == 0 && arrays::array(bytes, commands.1, base, None, 0) == Ok::<
                (Seq<u8>, nat),
                KrakenError,
            >(offsets)
        },
        if scale > 1 {
            arrays::array(bytes, offsets.1, base, Some(offsets.0.len() as usize), 0) == Ok::<
                (Seq<u8>, nat),
                KrakenError,
            >(low)
        } else {
            low == (Seq::<u8>::empty(), offsets.1)
        },
        arrays::array(bytes, low.1, base, None, 0) == Ok::<(Seq<u8>, nat), KrakenError>(lengths),
        offsets.0.len() <= commands.0.len(),
        lengths.0.len() <= size / 4,
        lz::lz_suffix(
            bytes.subrange(lengths.1 as int, bytes.len() as int),
            offsets.0,
            low.0,
            scale,
            lengths.0,
        ) == Some(spelled),
    ensures
        lz::lz_streams(bytes, at, base, size) == Ok::<lz::LzStreams, KrakenError>(
            lz::LzStreams {
                literals: literals.0,
                commands: commands.0,
                offsets: spelled.0,
                lengths: spelled.1,
            },
        ),
{
}

} // verus!
