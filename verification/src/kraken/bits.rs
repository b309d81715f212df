//! Bits of byte strings, read and written from either end of a byte.

use vstd::prelude::*;
use vstd::arithmetic::power2::{pow2, lemma2_to64, lemma_pow2_unfold, lemma_pow2_pos};

verus! {

/// The weight of bit `k` of a byte, bit 0 being the lowest.
pub open spec fn weight(k: int) -> int {
    if k == 0 {
        1
    } else if k == 1 {
        2
    } else if k == 2 {
        4
    } else if k == 3 {
        8
    } else if k == 4 {
        16
    } else if k == 5 {
        32
    } else if k == 6 {
        64
    } else {
        128
    }
}

/// Bit `k` of a byte, bit 0 being the lowest.
pub open spec fn bit_of(byte: u8, k: int) -> bool {
    (byte as int / weight(k)) % 2 == 1
}

/// Bit `i` of a byte string, counted from the high end of its first byte.
pub open spec fn msb_bit(bytes: Seq<u8>, i: int) -> bool {
    bit_of(bytes[i / 8], 7 - i % 8)
}

/// Bit `i` of a byte string, counted from the low end of its first byte.
pub open spec fn lsb_bit(bytes: Seq<u8>, i: int) -> bool {
    bit_of(bytes[i / 8], i % 8)
}

/// All bits of a byte string, each byte from its high end.
pub open spec fn msb_bits(bytes: Seq<u8>) -> Seq<bool> {
    Seq::new(8 * bytes.len(), |i: int| msb_bit(bytes, i))
}

/// All bits of a byte string, each byte from its low end.
pub open spec fn lsb_bits(bytes: Seq<u8>) -> Seq<bool> {
    Seq::new(8 * bytes.len(), |i: int| lsb_bit(bytes, i))
}

/// The number of bytes that hold `n` bits.
pub open spec fn bytes_for(n: nat) -> nat {
    ((n + 7) / 8) as nat
}

/// What bit `i` of a padded bit string adds to a byte at weight `w`.
pub open spec fn share(bits: Seq<bool>, i: int, w: int) -> int {
    if i < bits.len() && bits[i] {
        w
    } else {
        0
    }
}

/// The byte whose high end is bit `at`.
pub open spec fn msb_byte(bits: Seq<bool>, at: int) -> u8 {
    (share(bits, at, 128) + share(bits, at + 1, 64) + share(bits, at + 2, 32) + share(
        bits,
        at + 3,
        16,
    ) + share(bits, at + 4, 8) + share(bits, at + 5, 4) + share(bits, at + 6, 2) + share(
        bits,
        at + 7,
        1,
    )) as u8
}

/// The byte whose low end is bit `at`.
pub open spec fn lsb_byte(bits: Seq<bool>, at: int) -> u8 {
    (share(bits, at, 1) + share(bits, at + 1, 2) + share(bits, at + 2, 4) + share(bits, at + 3, 8)
        + share(bits, at + 4, 16) + share(bits, at + 5, 32) + share(bits, at + 6, 64) + share(
        bits,
        at + 7,
        128,
    )) as u8
}

/// Bits packed from the high end of each byte, the last byte padded with zeroes.
pub open spec fn msb_pack(bits: Seq<bool>) -> Seq<u8> {
    Seq::new(bytes_for(bits.len()), |k: int| msb_byte(bits, 8 * k))
}

/// Bits packed from the low end of each byte, the last byte padded with zeroes.
pub open spec fn lsb_pack(bits: Seq<bool>) -> Seq<u8> {
    Seq::new(bytes_for(bits.len()), |k: int| lsb_byte(bits, 8 * k))
}

/// The number that a bit string writes with its highest bit first.
pub open spec fn msb_value(bits: Seq<bool>) -> nat
    decreases bits.len(),
{
    if bits.len() == 0 {
        0
    } else {
        2 * msb_value(bits.drop_last()) + if bits.last() {
            1nat
        } else {
            0nat
        }
    }
}

/// The number that a bit string writes with its lowest bit first.
pub open spec fn lsb_value(bits: Seq<bool>) -> nat
    decreases bits.len(),
{
    if bits.len() == 0 {
        0
    } else {
        lsb_value(bits.drop_last()) + if bits.last() {
            pow2((bits.len() - 1) as nat)
        } else {
            0nat
        }
    }
}

/// The low `count` bits of `value`, highest first.
pub open spec fn value_bits(value: nat, count: nat) -> Seq<bool>
    decreases count,
{
    if count == 0 {
        seq![]
    } else {
        value_bits(value / 2, (count - 1) as nat).push(value % 2 == 1)
    }
}

/// The low `count` bits of `value`, lowest first.
pub open spec fn code_bits(value: nat, count: nat) -> Seq<bool>
    decreases count,
{
    if count == 0 {
        seq![]
    } else {
        code_bits(value, (count - 1) as nat).push((value / pow2((count - 1) as nat)) % 2 == 1)
    }
}

/// `n` zero bits.
pub open spec fn zeroes(n: nat) -> Seq<bool> {
    Seq::new(n, |i: int| false)
}

/// How many zero bits stand at `at`.
pub open spec fn zero_run(bits: Seq<bool>, at: nat) -> nat
    decreases bits.len() - at,
{
    if at < bits.len() && !bits[at as int] {
        1 + zero_run(bits, at + 1)
    } else {
        0
    }
}

// ---------------------------------------------------------------------------
// Single bytes
// ---------------------------------------------------------------------------

proof fn lemma_shifted_bits(b: u8)
    ensures
        (b >> 0u8) & 1 == (b / 1) % 2,
        (b >> 1u8) & 1 == (b / 2) % 2,
        (b >> 2u8) & 1 == (b / 4) % 2,
        (b >> 3u8) & 1 == (b / 8) % 2,
        (b >> 4u8) & 1 == (b / 16) % 2,
        (b >> 5u8) & 1 == (b / 32) % 2,
        (b >> 6u8) & 1 == (b / 64) % 2,
        (b >> 7u8) & 1 == (b / 128) % 2,
{
    assert((b >> 0u8) & 1 == (b / 1) % 2 && (b >> 1u8) & 1 == (b / 2) % 2 && (b >> 2u8) & 1 == (b
        / 4) % 2 && (b >> 3u8) & 1 == (b / 8) % 2 && (b >> 4u8) & 1 == (b / 16) % 2 && (b >> 5u8)
        & 1 == (b / 32) % 2 && (b >> 6u8) & 1 == (b / 64) % 2 && (b >> 7u8) & 1 == (b / 128) % 2)
        by (bit_vector);
}

proof fn lemma_bit_is_shift(b: u8, k: u8)
    requires
        k < 8,
    ensures
        bit_of(b, k as int) == ((b >> k) & 1 == 1),
{
    lemma_shifted_bits(b);
}

/// Reads bit `k` of a byte.
pub fn bit_at(byte: u8, k: usize) -> (bit: bool)
    requires
        k < 8,
    ensures
        bit == bit_of(byte, k as int),
{
    proof {
        lemma_bit_is_shift(byte, k as u8);
    }
    (byte >> (k as u8)) & 1 == 1
}

/// Sets bit `k` of a byte.
pub fn with_bit(byte: u8, k: usize) -> (result: u8)
    requires
        k < 8,
    ensures
        forall|j: int| 0 <= j < 8 ==> bit_of(result, j) == (j == k || bit_of(byte, j)),
{
    let k8: u8 = k as u8;
    let result: u8 = byte | (1u8 << k8);
    proof {
        assert forall|j: int| 0 <= j < 8 implies bit_of(result, j) == (j == k || bit_of(byte, j)) by {
            let j8: u8 = j as u8;
            lemma_bit_is_shift(result, j8);
            lemma_bit_is_shift(byte, j8);
            assert(((byte | (1u8 << k8)) >> j8) & 1u8 == (if j8 == k8 {
                1u8
            } else {
                (byte >> j8) & 1u8
            })) by (bit_vector)
                requires
                    k8 < 8,
                    j8 < 8,
            ;
        }
    }
    result
}

proof fn lemma_byte_is_sum_of_bits(b: u8)
    ensures
        b == (b / 1) % 2 + 2 * ((b / 2) % 2) + 4 * ((b / 4) % 2) + 8 * ((b / 8) % 2) + 16 * ((b / 16)
            % 2) + 32 * ((b / 32) % 2) + 64 * ((b / 64) % 2) + 128 * ((b / 128) % 2),
{
    assert(b == (b / 1) % 2 + 2 * ((b / 2) % 2) + 4 * ((b / 4) % 2) + 8 * ((b / 8) % 2) + 16 * ((b
        / 16) % 2) + 32 * ((b / 32) % 2) + 64 * ((b / 64) % 2) + 128 * ((b / 128) % 2))
        by (bit_vector);
}

/// A byte is determined by its bits.
pub proof fn lemma_byte_determined(a: u8, b: u8)
    requires
        forall|j: int| 0 <= j < 8 ==> bit_of(a, j) == bit_of(b, j),
    ensures
        a == b,
{
    lemma_byte_is_sum_of_bits(a);
    lemma_byte_is_sum_of_bits(b);
    assert(bit_of(a, 0) == bit_of(b, 0));
    assert(bit_of(a, 1) == bit_of(b, 1));
    assert(bit_of(a, 2) == bit_of(b, 2));
    assert(bit_of(a, 3) == bit_of(b, 3));
    assert(bit_of(a, 4) == bit_of(b, 4));
    assert(bit_of(a, 5) == bit_of(b, 5));
    assert(bit_of(a, 6) == bit_of(b, 6));
    assert(bit_of(a, 7) == bit_of(b, 7));
}

pub open spec fn flag(b: bool) -> int {
    if b {
        1
    } else {
        0
    }
}

/// The bits of a byte that is written as a sum of weights.
proof fn lemma_bits_of_sum(
    b0: bool,
    b1: bool,
    b2: bool,
    b3: bool,
    b4: bool,
    b5: bool,
    b6: bool,
    b7: bool,
    b: u8,
)
    requires
        b == flag(b0) + 2 * flag(b1) + 4 * flag(b2) + 8 * flag(b3) + 16 * flag(b4) + 32 * flag(b5)
            + 64 * flag(b6) + 128 * flag(b7),
    ensures
        bit_of(b, 0) == b0,
        bit_of(b, 1) == b1,
        bit_of(b, 2) == b2,
        bit_of(b, 3) == b3,
        bit_of(b, 4) == b4,
        bit_of(b, 5) == b5,
        bit_of(b, 6) == b6,
        bit_of(b, 7) == b7,
{
    assert(b as int / 1 == b);
}

proof fn lemma_msb_byte_bits(bits: Seq<bool>, at: int, j: int)
    requires
        0 <= at,
        0 <= j < 8,
    ensures
        bit_of(msb_byte(bits, at), 7 - j) == (at + j < bits.len() && bits[at + j]),
{
    let p = |i: int| at + i < bits.len() && bits[at + i];
    lemma_bits_of_sum(p(7), p(6), p(5), p(4), p(3), p(2), p(1), p(0), msb_byte(bits, at));
    assert(j == 0 || j == 1 || j == 2 || j == 3 || j == 4 || j == 5 || j == 6 || j == 7);
}

proof fn lemma_lsb_byte_bits(bits: Seq<bool>, at: int, j: int)
    requires
        0 <= at,
        0 <= j < 8,
    ensures
        bit_of(lsb_byte(bits, at), j) == (at + j < bits.len() && bits[at + j]),
{
    let p = |i: int| at + i < bits.len() && bits[at + i];
    lemma_bits_of_sum(p(0), p(1), p(2), p(3), p(4), p(5), p(6), p(7), lsb_byte(bits, at));
    assert(j == 0 || j == 1 || j == 2 || j == 3 || j == 4 || j == 5 || j == 6 || j == 7);
}

// ---------------------------------------------------------------------------
// Packing
// ---------------------------------------------------------------------------

/// Unpacking packed bits gives the bits back, followed by the zero padding.
pub proof fn lemma_msb_unpack(bits: Seq<bool>)
    ensures
        msb_pack(bits).len() == bytes_for(bits.len()),
        msb_bits(msb_pack(bits)).len() == 8 * bytes_for(bits.len()),
        msb_bits(msb_pack(bits)).len() >= bits.len(),
        msb_bits(msb_pack(bits)).subrange(0, bits.len() as int) == bits,
        forall|i: int|
            bits.len() <= i < 8 * bytes_for(bits.len()) ==> !(#[trigger] msb_bits(
                msb_pack(bits),
            )[i]),
{
    let packed = msb_pack(bits);
    assert forall|i: int| 0 <= i < 8 * packed.len() implies #[trigger] msb_bits(packed)[i] == (i
        < bits.len() && bits[i]) by {
        lemma_msb_byte_bits(bits, 8 * (i / 8), i % 8);
        assert(packed[i / 8] == msb_byte(bits, 8 * (i / 8)));
    }
    assert(msb_bits(packed).subrange(0, bits.len() as int) =~= bits);
}

/// Unpacking packed bits gives the bits back, followed by the zero padding.
pub proof fn lemma_lsb_unpack(bits: Seq<bool>)
    ensures
        lsb_pack(bits).len() == bytes_for(bits.len()),
        lsb_bits(lsb_pack(bits)).len() == 8 * bytes_for(bits.len()),
        lsb_bits(lsb_pack(bits)).len() >= bits.len(),
        lsb_bits(lsb_pack(bits)).subrange(0, bits.len() as int) == bits,
{
    let packed = lsb_pack(bits);
    assert forall|i: int| 0 <= i < 8 * packed.len() implies #[trigger] lsb_bits(packed)[i] == (i
        < bits.len() && bits[i]) by {
        lemma_lsb_byte_bits(bits, 8 * (i / 8), i % 8);
        assert(packed[i / 8] == lsb_byte(bits, 8 * (i / 8)));
    }
    assert(lsb_bits(packed).subrange(0, bits.len() as int) =~= bits);
}

pub proof fn lemma_msb_pack_unique(bytes: Seq<u8>, bits: Seq<bool>)
    requires
        bytes.len() == bytes_for(bits.len()),
        forall|i: int|
            0 <= i < 8 * bytes.len() ==> #[trigger] msb_bit(bytes, i) == (i < bits.len() && bits[i]),
    ensures
        bytes == msb_pack(bits),
{
    assert forall|k: int| 0 <= k < bytes.len() implies bytes[k] == msb_pack(bits)[k] by {
        assert forall|j: int| 0 <= j < 8 implies bit_of(bytes[k], j) == bit_of(
            msb_byte(bits, 8 * k),
            j,
        ) by {
            lemma_msb_byte_bits(bits, 8 * k, 7 - j);
            let i = 8 * k + (7 - j);
            assert(i / 8 == k && i % 8 == 7 - j);
            assert(msb_bit(bytes, i) == (i < bits.len() && bits[i]));
        }
        lemma_byte_determined(bytes[k], msb_byte(bits, 8 * k));
    }
    assert(bytes =~= msb_pack(bits));
}

pub proof fn lemma_lsb_pack_unique(bytes: Seq<u8>, bits: Seq<bool>)
    requires
        bytes.len() == bytes_for(bits.len()),
        forall|i: int|
            0 <= i < 8 * bytes.len() ==> #[trigger] lsb_bit(bytes, i) == (i < bits.len() && bits[i]),
    ensures
        bytes == lsb_pack(bits),
{
    assert forall|k: int| 0 <= k < bytes.len() implies bytes[k] == lsb_pack(bits)[k] by {
        assert forall|j: int| 0 <= j < 8 implies bit_of(bytes[k], j) == bit_of(
            lsb_byte(bits, 8 * k),
            j,
        ) by {
            lemma_lsb_byte_bits(bits, 8 * k, j);
            let i = 8 * k + j;
            assert(i / 8 == k && i % 8 == j);
            assert(lsb_bit(bytes, i) == (i < bits.len() && bits[i]));
        }
        lemma_byte_determined(bytes[k], lsb_byte(bits, 8 * k));
    }
    assert(bytes =~= lsb_pack(bits));
}

// ---------------------------------------------------------------------------
// Numbers
// ---------------------------------------------------------------------------

pub proof fn lemma_value_bits_len(value: nat, count: nat)
    ensures
        value_bits(value, count).len() == count,
    decreases count,
{
    if count > 0 {
        lemma_value_bits_len(value / 2, (count - 1) as nat);
    }
}

pub proof fn lemma_code_bits_len(value: nat, count: nat)
    ensures
        code_bits(value, count).len() == count,
    decreases count,
{
    if count > 0 {
        lemma_code_bits_len(value, (count - 1) as nat);
    }
}

/// Reading back the bits of a number that fits gives the number.
pub proof fn lemma_msb_value_of_bits(value: nat, count: nat)
    requires
        value < pow2(count),
    ensures
        msb_value(value_bits(value, count)) == value,
    decreases count,
{
    lemma_value_bits_len(value, count);
    if count > 0 {
        lemma_pow2_unfold(count);
        lemma_msb_value_of_bits(value / 2, (count - 1) as nat);
        assert(value_bits(value, count).drop_last() =~= value_bits(value / 2, (count - 1) as nat));
    } else {
        lemma2_to64();
    }
}

/// Writing the number that bits spell gives the bits.
pub proof fn lemma_bits_of_msb_value(bits: Seq<bool>)
    ensures
        value_bits(msb_value(bits), bits.len()) == bits,
        msb_value(bits) < pow2(bits.len()),
    decreases bits.len(),
{
    if bits.len() > 0 {
        lemma_bits_of_msb_value(bits.drop_last());
        lemma_pow2_unfold(bits.len());
        let v = msb_value(bits.drop_last());
        assert(msb_value(bits) / 2 == v);
        assert(value_bits(msb_value(bits), bits.len()) =~= bits);
    } else {
        lemma2_to64();
        assert(value_bits(0, 0) =~= bits);
    }
}

pub proof fn lemma_lsb_value_bound(bits: Seq<bool>)
    ensures
        lsb_value(bits) < pow2(bits.len()),
    decreases bits.len(),
{
    if bits.len() > 0 {
        lemma_lsb_value_bound(bits.drop_last());
        lemma_pow2_unfold(bits.len());
    } else {
        lemma2_to64();
    }
}

proof fn lemma_code_bits_low(value: nat, low: nat, k: nat, count: nat)
    requires
        count <= k,
        low < pow2(k),
    ensures
        code_bits(low + pow2(k) * value, count) == code_bits(low, count),
    decreases count,
{
    if count > 0 {
        lemma_code_bits_low(value, low, k, (count - 1) as nat);
        let c = (count - 1) as nat;
        let d = (k - c) as nat;
        vstd::arithmetic::power2::lemma_pow2_adds(c, d);
        lemma_pow2_unfold(d);
        lemma_pow2_pos(c);
        let p = pow2(c) as int;
        let h = pow2((d - 1) as nat) as int;
        assert(pow2(k) * value == p * (2 * h * value)) by (nonlinear_arith)
            requires
                pow2(k) == p * pow2(d),
                pow2(d) == 2 * h,
        ;
        let x = 2 * h * value;
        vstd::arithmetic::div_mod::lemma_div_multiples_vanish_fancy(x, low as int % p, p);
        vstd::arithmetic::div_mod::lemma_fundamental_div_mod(low as int, p);
        assert((low + p * x) / p == low as int / p + x) by {
            vstd::arithmetic::div_mod::lemma_hoist_over_denominator(low as int, x, p as nat);
            assert(p * x == x * p) by (nonlinear_arith);
        }
        assert(x == 2 * (h * value)) by (nonlinear_arith)
            requires
                x == 2 * h * value,
        ;
        assert(((low as int / p) + x) % 2 == (low as int / p) % 2);
    }
}

/// Writing the number that low-first bits spell gives the bits.
pub proof fn lemma_bits_of_lsb_value(bits: Seq<bool>)
    ensures
        code_bits(lsb_value(bits), bits.len()) == bits,
    decreases bits.len(),
{
    if bits.len() > 0 {
        let front = bits.drop_last();
        let k = front.len();
        lemma_bits_of_lsb_value(front);
        lemma_lsb_value_bound(front);
        let low = lsb_value(front);
        let top: nat = if bits.last() {
            1
        } else {
            0
        };
        assert(lsb_value(bits) == low + pow2(k) * top);
        lemma_code_bits_low(top, low, k, k);
        lemma_pow2_pos(k);
        assert((low + pow2(k) * top) / pow2(k) == top) by (nonlinear_arith)
            requires
                low < pow2(k),
                pow2(k) > 0,
                top == 0 || top == 1,
        ;
        assert(code_bits(lsb_value(bits), bits.len()) =~= bits);
    } else {
        assert(code_bits(0, 0) =~= bits);
    }
}

/// Reading back the low-first bits of a number that fits gives the number.
pub proof fn lemma_lsb_value_of_bits(value: nat, count: nat)
    requires
        value < pow2(count),
    ensures
        lsb_value(code_bits(value, count)) == value,
    decreases count,
{
    lemma_code_bits_len(value, count);
    if count > 0 {
        let c = (count - 1) as nat;
        lemma_pow2_unfold(count);
        lemma_pow2_pos(c);
        let low = value % pow2(c);
        let top = value / pow2(c);
        vstd::arithmetic::div_mod::lemma_fundamental_div_mod(value as int, pow2(c) as int);
        assert(top == 0 || top == 1) by (nonlinear_arith)
            requires
                value < 2 * pow2(c),
                pow2(c) > 0,
                top == value / pow2(c),
        ;
        assert(pow2(c) * top == (if top == 1 { pow2(c) } else { 0nat })) by (nonlinear_arith)
            requires
                top == 0 || top == 1,
        ;
        lemma_code_bits_low(top, low, c, c);
        lemma_lsb_value_of_bits(low, c);
        assert(code_bits(value, count).drop_last() =~= code_bits(value, c));
    } else {
        lemma2_to64();
    }
}

} // verus!
