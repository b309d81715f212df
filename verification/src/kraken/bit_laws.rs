//! What is written bit by bit is read back.

use super::bits;
use super::readers;
use super::writers;
use crate::sequence;
use vstd::arithmetic::power2::{lemma2_to64, lemma_pow2_pos, lemma_pow2_strictly_increases, lemma_pow2_unfold, pow2};
use vstd::prelude::*;

verus! {

proof fn lemma_msb_bits_prefix(bytes: Seq<u8>, more: Seq<u8>)
    ensures
        sequence::stands(bits::msb_bits(bytes + more), 0, bits::msb_bits(bytes)),
{
    let whole = bits::msb_bits(bytes + more);
    let part = bits::msb_bits(bytes);
    assert forall|i: int| 0 <= i < part.len() implies whole[i] == part[i] by {
        assert((bytes + more)[i / 8] == bytes[i / 8]);
    }
    assert(whole.subrange(0, part.len() as int) =~= part);
}

proof fn lemma_lsb_bits_prefix(bytes: Seq<u8>, more: Seq<u8>)
    ensures
        sequence::stands(bits::lsb_bits(bytes + more), 0, bits::lsb_bits(bytes)),
{
    let whole = bits::lsb_bits(bytes + more);
    let part = bits::lsb_bits(bytes);
    assert forall|i: int| 0 <= i < part.len() implies whole[i] == part[i] by {
        assert((bytes + more)[i / 8] == bytes[i / 8]);
    }
    assert(whole.subrange(0, part.len() as int) =~= part);
}

/// Packed bits stand at the start of what they are packed into.
pub proof fn lemma_msb_front(front: Seq<bool>, more: Seq<u8>)
    ensures
        sequence::stands(bits::msb_bits(bits::msb_pack(front) + more), 0, front),
{
    bits::lemma_msb_unpack(front);
    lemma_msb_bits_prefix(bits::msb_pack(front), more);
    sequence::lemma_stands_within(
        bits::msb_bits(bits::msb_pack(front) + more),
        0,
        bits::msb_bits(bits::msb_pack(front)),
        0,
        front,
    );
}

/// Packed bits stand at the start of what they are packed into.
pub proof fn lemma_lsb_front(front: Seq<bool>, more: Seq<u8>)
    ensures
        sequence::stands(bits::lsb_bits(bits::lsb_pack(front) + more), 0, front),
{
    bits::lemma_lsb_unpack(front);
    lemma_lsb_bits_prefix(bits::lsb_pack(front), more);
    sequence::lemma_stands_within(
        bits::lsb_bits(bits::lsb_pack(front) + more),
        0,
        bits::lsb_bits(bits::lsb_pack(front)),
        0,
        front,
    );
}

proof fn lemma_reverse_sum(front: Seq<u8>, back: Seq<u8>)
    ensures
        (front + back.reverse()).reverse() == back + front.reverse(),
{
    assert((front + back.reverse()).reverse() =~= back + front.reverse());
}

/// Two bit strings that are packed from both ends of one byte string.
pub proof fn lemma_msb_ends(front: Seq<bool>, back: Seq<bool>)
    ensures
        ({
            let bytes = bits::msb_pack(front) + bits::msb_pack(back).reverse();
            &&& sequence::stands(bits::msb_bits(bytes), 0, front)
            &&& sequence::stands(bits::msb_bits(bytes.reverse()), 0, back)
            &&& bytes.len() == bits::bytes_for(front.len()) + bits::bytes_for(back.len())
        }),
{
    lemma_msb_front(front, bits::msb_pack(back).reverse());
    lemma_reverse_sum(bits::msb_pack(front), bits::msb_pack(back));
    lemma_msb_front(back, bits::msb_pack(front).reverse());
}

/// Two bit strings that are packed from both ends of one byte string.
pub proof fn lemma_lsb_ends(front: Seq<bool>, back: Seq<bool>)
    ensures
        ({
            let bytes = bits::lsb_pack(front) + bits::lsb_pack(back).reverse();
            &&& sequence::stands(bits::lsb_bits(bytes), 0, front)
            &&& sequence::stands(bits::lsb_bits(bytes.reverse()), 0, back)
            &&& bytes.len() == bits::bytes_for(front.len()) + bits::bytes_for(back.len())
        }),
{
    lemma_lsb_front(front, bits::lsb_pack(back).reverse());
    lemma_reverse_sum(bits::lsb_pack(front), bits::lsb_pack(back));
    lemma_lsb_front(back, bits::lsb_pack(front).reverse());
}

/// A number that was written is read back.
pub proof fn lemma_read_value(bits: Seq<bool>, at: nat, other: nat, value: nat, count: nat)
    requires
        sequence::stands(bits, at, bits::value_bits(value, count)),
        value < pow2(count),
        at + other + count <= bits.len(),
    ensures
        readers::paired_read(bits, at, other, count) == Some((value, at + count)),
{
    bits::lemma_value_bits_len(value, count);
    bits::lemma_msb_value_of_bits(value, count);
}

/// A number that was written is read back.
pub proof fn lemma_read_msb(bits: Seq<bool>, at: nat, value: nat, count: nat)
    requires
        sequence::stands(bits, at, bits::value_bits(value, count)),
        value < pow2(count),
        count <= 32,
    ensures
        readers::read_bits(bits, at, count) == Some((value, at + count)),
{
    bits::lemma_value_bits_len(value, count);
    bits::lemma_msb_value_of_bits(value, count);
}

/// A number that was written low end first is read back.
pub proof fn lemma_read_code(bits: Seq<bool>, at: nat, other: nat, value: nat, count: nat)
    requires
        sequence::stands(bits, at, bits::code_bits(value, count)),
        value < pow2(count),
        at + other + count <= bits.len(),
    ensures
        readers::tans_read(bits, at, other, count) == Some((value, at + count)),
{
    bits::lemma_code_bits_len(value, count);
    bits::lemma_lsb_value_of_bits(value, count);
}

proof fn lemma_read_unary(bits: Seq<bool>, at: nat, other: nat, n: nat, limit: nat)
    requires
        sequence::stands(bits, at, bits::zeroes(n).push(true)),
        at + n + other < bits.len(),
        n <= limit,
    ensures
        readers::paired_unary(bits, at, other, limit) == Some((n, at + n + 1)),
{
    let part = bits::zeroes(n).push(true);
    assert forall|i: int| at <= i < at + n implies !bits[i] by {
        sequence::lemma_stands_index(bits, at, part, i - at);
    }
    sequence::lemma_stands_index(bits, at, part, n as int);
    readers::lemma_zero_run(bits, at, n);
}

/// An extended length that was written is read back.
pub proof fn lemma_read_extended(bits: Seq<bool>, at: nat, other: nat, value: nat)
    requires
        sequence::stands(bits, at, writers::extended_bits(value)),
        at + writers::extended_bits(value).len() + other <= bits.len(),
        value < writers::EXTENDED_LENGTHS,
    ensures
        readers::paired_extended_length(bits, at, other) == Some(
            (value, at + writers::extended_bits(value).len()),
        ),
{
    lemma2_to64();
    let tier = writers::tier_of(value, 0);
    assert(writers::tier_base(0) == 0);
    writers::lemma_tier_of(value, 0);
    if tier > 25 {
        if tier > 26 {
            lemma_pow2_strictly_increases(26, tier);
        }
        assert(false);
    }
    lemma_pow2_unfold(tier + 1);
    lemma_pow2_pos(tier);
    let place = (value - writers::tier_base(tier)) as nat;
    vstd::arithmetic::power2::lemma_pow2_adds(tier, 6);
    let unary = bits::zeroes(tier).push(true);
    let tail = bits::value_bits(place, tier + 6);
    bits::lemma_value_bits_len(place, tier + 6);
    sequence::lemma_stands_split(bits, at, unary, tail);
    lemma_read_unary(bits, at, other, tier, 25);
    lemma_read_value(bits, at + tier + 1, other, place, tier + 6);
}

proof fn lemma_two_in_gamma()
    ensures
        bits::msb_pack(writers::gamma_bits(2)) == seq![0x40u8],
        writers::gamma_bits(2).len() == 3,
{
    reveal_with_fuel(writers::log2, 3);
    reveal_with_fuel(bits::value_bits, 3);
    assert(writers::gamma_bits(2) =~= seq![false, true, false]);
    assert(bits::msb_pack(writers::gamma_bits(2)) =~= seq![0x40u8]);
}

/// An extended length that is written by itself, with the count of lengths at
/// the other end, is read back: the count from the back, then the length from
/// the front.
pub proof fn law_extended_length(value: nat)
    requires
        value < writers::EXTENDED_LENGTHS,
    ensures
        ({
            let bytes = bits::msb_pack(writers::extended_bits(value)) + seq![0x40u8];
            let front = bits::msb_bits(bytes);
            let back = bits::msb_bits(bytes.reverse());
            &&& readers::paired_gamma_minus_one(back, 0, 0) == Some((1nat, 3nat))
            &&& readers::paired_extended_length(front, 0, 3) == Some(
                (value, writers::extended_bits(value).len()),
            )
        }),
{
    let bytes = bits::msb_pack(writers::extended_bits(value)) + seq![0x40u8];
    lemma_two_in_gamma();
    lemma_msb_ends(writers::extended_bits(value), writers::gamma_bits(2));
    assert(seq![0x40u8].reverse() =~= seq![0x40u8]);
    lemma_read_gamma(bits::msb_bits(bytes.reverse()), 0, 0, 2);
    lemma_read_extended(bits::msb_bits(bytes), 0, 3, value);
}

/// The highest bit of a number, and the rest.
pub proof fn lemma_value_bits_top(value: nat, k: nat)
    requires
        pow2(k) <= value < 2 * pow2(k),
    ensures
        bits::value_bits(value, k + 1) == seq![true] + bits::value_bits(
            (value - pow2(k)) as nat,
            k,
        ),
    decreases k,
{
    let rest = (value - pow2(k)) as nat;
    if k == 0 {
        lemma2_to64();
        assert(value == 1);
        assert(bits::value_bits(0, 0) =~= Seq::<bool>::empty());
        assert(bits::value_bits(value / 2, 0) =~= Seq::<bool>::empty());
        assert(bits::value_bits(value, 1) =~= seq![true] + bits::value_bits(rest, 0));
    } else {
        lemma_pow2_unfold(k);
        lemma_value_bits_top(value / 2, (k - 1) as nat);
        assert(((value / 2) - pow2((k - 1) as nat)) as nat == rest / 2);
        assert(value % 2 == rest % 2);
        assert(bits::value_bits(value, k + 1) =~= seq![true] + bits::value_bits(rest, k));
    }
}

/// A gamma code that was written is read back, less one.
pub proof fn lemma_read_gamma(bits: Seq<bool>, at: nat, other: nat, value: nat)
    requires
        sequence::stands(bits, at, writers::gamma_bits(value)),
        at + writers::gamma_bits(value).len() + other <= bits.len(),
        0 < value <= 0xffff_ffff,
    ensures
        readers::paired_gamma_minus_one(bits, at, other) == Some(
            ((value - 1) as nat, at + writers::gamma_bits(value).len()),
        ),
{
    writers::lemma_gamma_len(value);
    writers::lemma_log2(value);
    let k = writers::log2(value);
    lemma_pow2_unfold(k + 1);
    lemma_value_bits_top(value, k);
    let rest = (value - pow2(k)) as nat;
    let unary = bits::zeroes(k).push(true);
    let tail = bits::value_bits(rest, k);
    bits::lemma_value_bits_len(rest, k);
    assert(writers::gamma_bits(value) =~= unary + tail);
    sequence::lemma_stands_split(bits, at, unary, tail);
    lemma_read_unary(bits, at, other, k, 31);
    lemma_read_value(bits, at + k + 1, other, rest, k);
}

} // verus!
