//! Canonical codes can be told apart: no code begins with another.

use super::bits;
use super::huffman;
use super::huffman_encoder;
use super::tables;
use crate::sequence;
use vstd::arithmetic::div_mod::{lemma_div_denominator, lemma_fundamental_div_mod, lemma_div_by_multiple};
use vstd::arithmetic::power2::{
    lemma2_to64, lemma_pow2_adds, lemma_pow2_pos, lemma_pow2_unfold, pow2,
};
use vstd::prelude::*;

verus! {

// ---------------------------------------------------------------------------
// Bits of numbers
// ---------------------------------------------------------------------------

proof fn lemma_value_bits_index(value: nat, count: nat, i: int)
    requires
        0 <= i < count,
    ensures
        bits::value_bits(value, count).len() == count,
        bits::value_bits(value, count)[i] == ((value / pow2((count - 1 - i) as nat)) % 2 == 1),
    decreases count,
{
    bits::lemma_value_bits_len(value, count);
    bits::lemma_value_bits_len(value / 2, (count - 1) as nat);
    if i == count - 1 {
        lemma2_to64();
        assert(value / 1 == value);
    } else {
        lemma_value_bits_index(value / 2, (count - 1) as nat, i);
        let e = (count - 2 - i) as nat;
        lemma_pow2_unfold(e + 1);
        lemma_pow2_pos(e);
        lemma_div_denominator(value as int, 2, pow2(e) as int);
    }
}

proof fn lemma_code_bits_index(value: nat, count: nat, i: int)
    requires
        0 <= i < count,
    ensures
        bits::code_bits(value, count).len() == count,
        bits::code_bits(value, count)[i] == ((value / pow2(i as nat)) % 2 == 1),
    decreases count,
{
    bits::lemma_code_bits_len(value, count);
    bits::lemma_code_bits_len(value, (count - 1) as nat);
    if i < count - 1 {
        lemma_code_bits_index(value, (count - 1) as nat, i);
    }
}

proof fn lemma_code_bits_reverse(value: nat, count: nat)
    ensures
        bits::code_bits(value, count) == bits::value_bits(value, count).reverse(),
{
    bits::lemma_code_bits_len(value, count);
    bits::lemma_value_bits_len(value, count);
    assert forall|i: int| 0 <= i < count implies #[trigger] bits::code_bits(value, count)[i]
        == bits::value_bits(value, count).reverse()[i] by {
        lemma_code_bits_index(value, count, i);
        lemma_value_bits_index(value, count, count - 1 - i);
    }
    assert(bits::code_bits(value, count) =~= bits::value_bits(value, count).reverse());
}

proof fn lemma_msb_value_first(first: bool, rest: Seq<bool>)
    ensures
        bits::msb_value(seq![first] + rest) == bits::msb_value(rest) + if first {
            pow2(rest.len())
        } else {
            0nat
        },
    decreases rest.len(),
{
    let whole = seq![first] + rest;
    if rest.len() == 0 {
        assert(whole.drop_last() =~= Seq::<bool>::empty());
        assert(whole.last() == first);
        assert(bits::msb_value(whole.drop_last()) == 0);
        assert(bits::msb_value(rest) == 0);
        lemma2_to64();
    } else {
        assert(whole.last() == rest.last());
        assert(whole.drop_last() =~= seq![first] + rest.drop_last());
        lemma_msb_value_first(first, rest.drop_last());
        lemma_pow2_unfold(rest.len());
    }
}

proof fn lemma_msb_value_reverse(b: Seq<bool>)
    ensures
        bits::msb_value(b.reverse()) == bits::lsb_value(b),
    decreases b.len(),
{
    if b.len() > 0 {
        assert(b.reverse() =~= seq![b.last()] + b.drop_last().reverse());
        lemma_msb_value_first(b.last(), b.drop_last().reverse());
        lemma_msb_value_reverse(b.drop_last());
    } else {
        assert(b.reverse() =~= b);
    }
}

/// The bits of a reversed number, lowest first, are the number's bits, highest
/// first.
proof fn lemma_reversed_bits(value: nat, count: nat)
    ensures
        bits::code_bits(huffman::reversed(value, count), count) == bits::value_bits(value, count),
        huffman::reversed(value, count) < pow2(count),
{
    let b = bits::value_bits(value, count);
    bits::lemma_value_bits_len(value, count);
    lemma_code_bits_reverse(value, count);
    lemma_msb_value_reverse(b);
    bits::lemma_bits_of_lsb_value(b);
    bits::lemma_lsb_value_bound(b);
}

proof fn lemma_value_bits_prefix(value: nat, count: nat, k: nat)
    requires
        k <= count,
    ensures
        bits::value_bits(value, count).len() == count,
        bits::value_bits(value, count).subrange(0, k as int) == bits::value_bits(
            value / pow2((count - k) as nat),
            k,
        ),
    decreases count - k,
{
    bits::lemma_value_bits_len(value, count);
    if k == count {
        lemma2_to64();
        assert(value / 1 == value);
        assert(bits::value_bits(value, count).subrange(0, k as int) =~= bits::value_bits(
            value,
            count,
        ));
    } else {
        lemma_value_bits_prefix(value / 2, (count - 1) as nat, k);
        bits::lemma_value_bits_len(value / 2, (count - 1) as nat);
        let e = (count - 1 - k) as nat;
        lemma_pow2_unfold(e + 1);
        lemma_pow2_pos(e);
        lemma_div_denominator(value as int, 2, pow2(e) as int);
        assert(bits::value_bits(value, count).subrange(0, k as int) =~= bits::value_bits(
            value / 2,
            (count - 1) as nat,
        ).subrange(0, k as int));
    }
}

// ---------------------------------------------------------------------------
// Codes
// ---------------------------------------------------------------------------

/// The bits of an entry's code.
pub open spec fn entry_bits(entry: (u16, u8, u8)) -> Seq<bool> {
    bits::code_bits(entry.0 as nat, entry.1 as nat)
}

/// Codes of one to eleven bits, none of which begins with another.
pub open spec fn prefix_free(entries: Seq<(u16, u8, u8)>) -> bool {
    &&& forall|i: int|
        0 <= i < entries.len() ==> 1 <= (#[trigger] entries[i]).1 <= 11 && entries[i].0 < pow2(
            entries[i].1 as nat,
        )
    &&& forall|i: int, j: int|
        0 <= i < entries.len() && 0 <= j < entries.len() && i != j && entries[i].1 <= entries[j].1
            ==> (#[trigger] entry_bits(entries[j])).subrange(0, entries[i].1 as int)
            != #[trigger] entry_bits(entries[i])
}

/// The slots that the codes before code `i` take.
spec fn slots_before(keys: Seq<u64>, i: int) -> nat {
    huffman::kraft_slots(keys.subrange(0, i))
}

spec fn key_length(keys: Seq<u64>, i: int) -> nat {
    (keys[i] / 256) as nat
}

/// The code of key `i`, highest bit first.
spec fn code_at(keys: Seq<u64>, i: int) -> nat {
    slots_before(keys, i) / pow2((11 - key_length(keys, i)) as nat)
}

spec fn is_canonical(keys: Seq<u64>, i: int, entry: (u16, u8, u8)) -> bool {
    let length = key_length(keys, i);
    &&& entry.1 == length
    &&& entry.0 == huffman::reversed(code_at(keys, i), length)
    &&& code_at(keys, i) * pow2((11 - length) as nat) == slots_before(keys, i)
    &&& code_at(keys, i) < pow2(length)
}

spec fn keys_ok(keys: Seq<u64>) -> bool {
    &&& forall|i: int| 0 <= i < keys.len() ==> 1 <= #[trigger] keys[i] / 256 <= 11
    &&& forall|i: int, j: int| 0 <= i <= j < keys.len() ==> keys[i] <= keys[j]
    &&& huffman::kraft_slots(keys) == 2048
}

proof fn lemma_slots_step(keys: Seq<u64>, i: int)
    requires
        0 <= i < keys.len(),
    ensures
        slots_before(keys, i + 1) == slots_before(keys, i) + pow2(
            (11 - key_length(keys, i)) as nat,
        ),
{
    assert(keys.subrange(0, i + 1).drop_last() =~= keys.subrange(0, i));
}

proof fn lemma_canonical_entries(
    keys: Seq<u64>,
    entries: Seq<(u16, u8, u8)>,
    code: nat,
    previous: nat,
)
    requires
        keys_ok(keys),
        entries.len() <= keys.len(),
        entries.len() < keys.len() ==> previous <= key_length(keys, entries.len() as int),
        previous <= 11,
        code * pow2((11 - previous) as nat) == slots_before(keys, entries.len() as int),
    ensures
        ({
            let r = huffman::canonical_entries(keys, entries, code, previous);
            &&& r.len() == keys.len()
            &&& forall|i: int| 0 <= i < entries.len() ==> #[trigger] r[i] == entries[i]
            &&& forall|i: int| entries.len() <= i < r.len() ==> is_canonical(keys, i, #[trigger] r[i])
        }),
    decreases keys.len() - entries.len(),
{
    if entries.len() < keys.len() {
        let n = entries.len() as int;
        let length = key_length(keys, n);
        let slots = slots_before(keys, n);
        assert(keys[n] / 256 <= 11);
        lemma_slots_step(keys, n);
        huffman::lemma_kraft_monotone(keys, n + 1, keys.len() as int);
        assert(keys.subrange(0, keys.len() as int) =~= keys);
        lemma_pow2_pos((11 - length) as nat);
        huffman::lemma_code_step(code, previous, length, slots);
        let scaled = code * pow2((length - previous) as nat);
        let unit = pow2((11 - length) as nat);
        assert(scaled * unit == slots);
        lemma_div_by_multiple(scaled as int, unit as int);
        assert(code_at(keys, n) == scaled);
        lemma_reversed_bits(scaled, length);
        lemma2_to64();
        let entry = (
            huffman::reversed(scaled, length) as u16,
            length as u8,
            (keys[n] % 256) as u8,
        );
        assert(is_canonical(keys, n, entry));
        if n + 1 < keys.len() {
            assert(keys[n] <= keys[n + 1]);
        }
        lemma_canonical_entries(keys, entries.push(entry), scaled + 1, length);
        let r = huffman::canonical_entries(keys, entries, code, previous);
        assert(r == huffman::canonical_entries(keys, entries.push(entry), scaled + 1, length));
        assert forall|i: int| entries.len() <= i < r.len() implies is_canonical(
            keys,
            i,
            #[trigger] r[i],
        ) by {
            if i == n {
                assert(r[i] == entries.push(entry)[i]);
            }
        }
        assert forall|i: int| 0 <= i < entries.len() implies #[trigger] r[i] == entries[i] by {
            assert(r[i] == entries.push(entry)[i]);
        }
    }
}

proof fn lemma_codes_apart(keys: Seq<u64>, i: int, j: int, a: (u16, u8, u8), b: (u16, u8, u8))
    requires
        keys_ok(keys),
        0 <= i < j < keys.len(),
        is_canonical(keys, i, a),
        is_canonical(keys, j, b),
    ensures
        a.1 <= b.1,
        entry_bits(b).subrange(0, a.1 as int) != entry_bits(a),
{
    let la = key_length(keys, i);
    let lb = key_length(keys, j);
    let ca = code_at(keys, i);
    let cb = code_at(keys, j);
    assert(keys[i] <= keys[j]);
    assert(1 <= keys[i] / 256 <= 11);
    assert(1 <= keys[j] / 256 <= 11);
    lemma_reversed_bits(ca, la);
    lemma_reversed_bits(cb, lb);
    let d = (lb - la) as nat;
    if entry_bits(b).subrange(0, a.1 as int) == entry_bits(a) {
        lemma_value_bits_prefix(cb, lb, la);
        let top = cb / pow2(d);
        lemma_pow2_pos(d);
        lemma_pow2_adds(la, d);
        lemma_fundamental_div_mod(cb as int, pow2(d) as int);
        let p = pow2(d) as int;
        let q = pow2(la) as int;
        assert(top < q) by (nonlinear_arith)
            requires
                cb == p * top + cb % pow2(d),
                cb % pow2(d) >= 0,
                cb < q * p,
                p > 0,
        ;
        bits::lemma_msb_value_of_bits(top, la);
        bits::lemma_msb_value_of_bits(ca, la);
        assert(top == ca);
        lemma_slots_step(keys, i);
        huffman::lemma_kraft_monotone(keys, i + 1, j);
        let ub = pow2((11 - lb) as nat) as int;
        lemma_pow2_pos((11 - lb) as nat);
        lemma_pow2_adds(d, (11 - lb) as nat);
        let ua = pow2((11 - la) as nat) as int;
        assert(ua == p * ub);
        assert(cb * ub < ca * ua + ua) by (nonlinear_arith)
            requires
                cb < p * ca + p,
                ua == p * ub,
                ub > 0,
        ;
        assert(false);
    }
}

/// Canonical codes are prefix free.
pub proof fn lemma_canonical_prefix_free(symbols: Seq<u8>, lengths: Seq<u8>)
    requires
        huffman::canonical_table(symbols, lengths) is Some,
    ensures
        prefix_free(huffman::canonical_table(symbols, lengths)->0),
{
    let keys = sequence::sorted(huffman::length_keys(symbols, lengths));
    let r = huffman::canonical_table(symbols, lengths)->0;
    sequence::lemma_sorted(huffman::length_keys(symbols, lengths));
    huffman::lemma_keys_in_range(symbols, lengths);
    lemma2_to64();
    assert(keys_ok(keys));
    assert(keys.subrange(0, 0) =~= Seq::<u64>::empty());
    lemma_canonical_entries(keys, seq![], 0, 0);
    assert forall|i: int| 0 <= i < r.len() implies 1 <= (#[trigger] r[i]).1 <= 11 && r[i].0 < pow2(
        r[i].1 as nat,
    ) by {
        assert(is_canonical(keys, i, r[i]));
        assert(1 <= keys[i] / 256 <= 11);
        lemma_reversed_bits(code_at(keys, i), key_length(keys, i));
    }
    assert forall|i: int, j: int|
        0 <= i < r.len() && 0 <= j < r.len() && i != j && r[i].1 <= r[j].1 implies (
    #[trigger] entry_bits(r[j])).subrange(0, r[i].1 as int) != #[trigger] entry_bits(r[i]) by {
        assert(is_canonical(keys, i, r[i]));
        assert(is_canonical(keys, j, r[j]));
        bits::lemma_code_bits_len(r[i].0 as nat, r[i].1 as nat);
        bits::lemma_code_bits_len(r[j].0 as nat, r[j].1 as nat);
        if i < j {
            lemma_codes_apart(keys, i, j, r[i], r[j]);
        } else {
            lemma_codes_apart(keys, j, i, r[j], r[i]);
            assert(entry_bits(r[j]).subrange(0, r[i].1 as int) =~= entry_bits(r[j]));
            assert(entry_bits(r[i]).subrange(0, r[j].1 as int) =~= entry_bits(r[i]));
        }
    }
}

/// Canonical codes have one to eleven bits.
pub proof fn lemma_canonical_range(symbols: Seq<u8>, lengths: Seq<u8>)
    ensures
        huffman::canonical_table(symbols, lengths) matches Some(entries)
            ==> huffman_encoder::codes_in_range(entries),
{
    if huffman::canonical_table(symbols, lengths) is Some {
        lemma_canonical_prefix_free(symbols, lengths);
    }
}

/// So do those that a header gives.
pub proof fn lemma_table_of_range(header: Option<(Seq<u8>, Seq<u8>, nat)>)
    ensures
        tables::table_of(header) matches Some(table) ==> huffman_encoder::codes_in_range(table.0)
            && prefix_free(table.0),
{
    match header {
        None => {},
        Some((symbols, lengths, _)) => {
            if huffman::canonical_table(symbols, lengths) is Some {
                lemma_canonical_prefix_free(symbols, lengths);
            }
        },
    }
}

} // verus!
