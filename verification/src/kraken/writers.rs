//! Bit writers.

use super::bits;
use super::bits::with_bit;
use vstd::arithmetic::power2::{lemma_pow2_pos, lemma_pow2_unfold, pow2, lemma2_to64, lemma_pow2_strictly_increases};
use vstd::prelude::*;

verus! {

/// Collects bits from the high end of each byte.
pub struct MsbBits {
    bytes: Vec<u8>,
    bit_len: usize,
}

/// The bits of an Elias gamma code: as many zeroes as the number has bits
/// after its first, then the number.
pub open spec fn gamma_bits(value: nat) -> Seq<bool>
    recommends
        value > 0,
{
    bits::zeroes(log2(value)) + bits::value_bits(value, log2(value) + 1)
}

/// The integer part of the binary logarithm.
pub open spec fn log2(value: nat) -> nat
    decreases value,
{
    if value <= 1 {
        0
    } else {
        1 + log2(value / 2)
    }
}

/// How many extended lengths there are: those of the tiers up to the twenty-fifth.
pub const EXTENDED_LENGTHS: usize = 0xffff_ffc0;

/// The first length of tier `tier`: tier `t` has `2^(t + 6)` lengths.
pub open spec fn tier_base(tier: nat) -> nat {
    ((pow2(tier) - 1) * 64) as nat
}

/// The tier that holds an extended length, counted from `from`.
pub open spec fn tier_of(value: nat, from: nat) -> nat
    decreases value - tier_base(from),
    via tier_of_decreases
{
    if value >= tier_base(from + 1) {
        tier_of(value, from + 1)
    } else {
        from
    }
}

#[via_fn]
proof fn tier_of_decreases(value: nat, from: nat) {
    lemma_pow2_unfold(from + 1);
    lemma_pow2_pos(from);
}

/// The bits of an extended length: its tier in unary, then its place there.
pub open spec fn extended_bits(value: nat) -> Seq<bool> {
    let tier = tier_of(value, 0);
    bits::zeroes(tier).push(true) + bits::value_bits((value - tier_base(tier)) as nat, tier + 6)
}

pub proof fn lemma_tier_of(value: nat, from: nat)
    requires
        value >= tier_base(from),
    ensures
        tier_of(value, from) >= from,
        tier_base(tier_of(value, from)) <= value < tier_base(tier_of(value, from) + 1),
    decreases value - tier_base(from),
{
    lemma_pow2_unfold(from + 1);
    lemma_pow2_pos(from);
    if value >= tier_base(from + 1) {
        lemma_tier_of(value, from + 1);
    }
}

pub proof fn lemma_log2(value: nat)
    requires
        value > 0,
    ensures
        pow2(log2(value)) <= value < pow2(log2(value) + 1),
    decreases value,
{
    lemma_pow2_unfold(log2(value) + 1);
    if value <= 1 {
        lemma2_to64();
    } else {
        lemma_log2(value / 2);
        lemma_pow2_unfold(log2(value));
    }
}

pub proof fn lemma_gamma_len(value: nat)
    requires
        0 < value <= 0xffff_ffff,
    ensures
        gamma_bits(value).len() == 2 * log2(value) + 1,
        log2(value) < 32,
{
    lemma_log2(value);
    lemma2_to64();
    if log2(value) > 32 {
        lemma_pow2_strictly_increases(32, log2(value));
    }
    bits::lemma_value_bits_len(value, log2(value) + 1);
}

pub proof fn lemma_log2_unique(value: nat, k: nat)
    requires
        pow2(k) <= value < pow2(k + 1),
    ensures
        log2(value) == k,
{
    lemma_pow2_pos(k);
    lemma_log2(value);
    if log2(value) < k {
        if log2(value) + 1 < k {
            lemma_pow2_strictly_increases(log2(value) + 1, k);
        }
    } else if log2(value) > k {
        if log2(value) > k + 1 {
            lemma_pow2_strictly_increases(k + 1, log2(value));
        }
    }
}

/// Computes the integer part of the binary logarithm.
pub fn ilog2(value: usize) -> (result: u32)
    requires
        value > 0,
    ensures
        result == log2(value as nat),
        result < 64,
{
    let mut rest: usize = value;
    let mut result: u32 = 0;
    proof {
        lemma_log2(value as nat);
        lemma2_to64();
        if log2(value as nat) > 64 {
            lemma_pow2_strictly_increases(64, log2(value as nat));
        }
    }
    while rest > 1
        invariant
            rest > 0,
            result + log2(rest as nat) == log2(value as nat),
            result <= value - rest,
            log2(value as nat) < 64,
        decreases rest,
    {
        rest = rest / 2;
        result = result + 1;
    }
    result
}

impl MsbBits {
    /// The bits written so far.
    pub closed spec fn bits(&self) -> Seq<bool> {
        Seq::new(self.bit_len as nat, |i: int| bits::msb_bit(self.bytes@, i))
    }

    /// The bytes are just enough for the bits, and padded with zeroes.
    pub closed spec fn wf(&self) -> bool {
        &&& self.bytes.len() == bits::bytes_for(self.bit_len as nat)
        &&& forall|i: int|
            self.bit_len <= i < 8 * self.bytes.len() ==> !#[trigger] bits::msb_bit(self.bytes@, i)
    }

    pub fn new() -> (result: Self)
        ensures
            result.wf(),
            result.bits() == Seq::<bool>::empty(),
    {
        let result = MsbBits { bytes: Vec::new(), bit_len: 0 };
        assert(result.bits() =~= Seq::<bool>::empty());
        result
    }

    /// Appends one bit.
    pub fn push_bit(&mut self, bit: bool)
        requires
            old(self).wf(),
            old(self).bits().len() < usize::MAX - 8,
        ensures
            final(self).wf(),
            final(self).bits() == old(self).bits().push(bit),
    {
        let ghost before = self.bytes@;
        if self.bit_len % 8 == 0 {
            self.bytes.push(0);
        }
        let ghost padded = self.bytes@;
        proof {
            assert forall|i: int| 0 <= i < 8 * padded.len() implies #[trigger] bits::msb_bit(padded, i) == (i
                < self.bit_len && bits::msb_bit(before, i)) by {
                if i < 8 * before.len() {
                    assert(padded[i / 8] == before[i / 8]);
                    assert(i >= self.bit_len ==> !bits::msb_bit(before, i));
                } else {
                    assert(padded[i / 8] == 0);
                }
            }
        }
        if bit {
            let last: usize = self.bit_len / 8;
            let byte: u8 = with_bit(self.bytes[last], 7 - self.bit_len % 8);
            self.bytes.set(last, byte);
        }
        proof {
            let at = self.bit_len as int;
            assert forall|i: int| 0 <= i < 8 * self.bytes@.len() implies #[trigger] bits::msb_bit(
                self.bytes@,
                i,
            ) == (if i == at {
                bit
            } else {
                bits::msb_bit(padded, i)
            }) by {
                assert(0 <= 7 - i % 8 < 8);
                assert(!bits::msb_bit(padded, at));
                if bit && i / 8 == at / 8 {
                    assert((7 - i % 8 == 7 - at % 8) == (i == at));
                    assert(bits::msb_bit(padded, i) == bits::bit_of(padded[at / 8], 7 - i % 8));
                }
            }
        }
        self.bit_len = self.bit_len + 1;
        assert(self.bits() =~= old(self).bits().push(bit));
    }

    /// Appends the low `count` bits of `value`, highest first.
    pub fn push_value(&mut self, value: u32, count: u32)
        requires
            old(self).wf(),
            count <= 32,
            old(self).bits().len() + count < usize::MAX - 8,
        ensures
            final(self).wf(),
            final(self).bits() == old(self).bits() + bits::value_bits(value as nat, count as nat),
    {
        let mut shift: u32 = count;
        let ghost start = self.bits();
        proof {
            lemma_pow2_pos(shift as nat);
            assert(start + bits::value_bits((value as nat) / pow2(shift as nat), 0) =~= start);
        }
        while shift > 0
            invariant
                shift <= count <= 32,
                self.wf(),
                start.len() + count < usize::MAX - 8,
                self.bits() == start + bits::value_bits(
                    (value as nat) / pow2(shift as nat),
                    (count - shift) as nat,
                ),
            decreases shift,
        {
            shift = shift - 1;
            proof {
                bits::lemma_value_bits_len(
                    (value as nat) / pow2((shift + 1) as nat),
                    (count - shift - 1) as nat,
                );
                lemma_pow2_unfold((shift + 1) as nat);
                lemma_pow2_pos(shift as nat);
                vstd::arithmetic::div_mod::lemma_div_denominator(
                    value as int,
                    pow2(shift as nat) as int,
                    2,
                );
                assert(pow2(shift as nat) * 2 == 2 * pow2(shift as nat));
                vstd::bits::lemma_u32_shr_is_div(value, shift);
            }
            let low: u32 = (value >> shift) % 2;
            self.push_bit(low != 0);
            proof {
                assert(self.bits() =~= start + bits::value_bits(
                    (value as nat) / pow2(shift as nat),
                    (count - shift) as nat,
                ));
            }
        }
        proof {
            lemma2_to64();
            assert((value as nat) / 1 == value);
        }
    }

    /// Appends `count` zero bits.
    pub fn push_zeroes(&mut self, count: u32)
        requires
            old(self).wf(),
            old(self).bits().len() + count < usize::MAX - 8,
        ensures
            final(self).wf(),
            final(self).bits() == old(self).bits() + bits::zeroes(count as nat),
    {
        let ghost start = self.bits();
        assert(start + bits::zeroes(0) =~= start);
        let mut done: u32 = 0;
        while done < count
            invariant
                done <= count,
                self.wf(),
                start.len() + count < usize::MAX - 8,
                self.bits() == start + bits::zeroes(done as nat),
            decreases count - done,
        {
            self.push_bit(false);
            done = done + 1;
            assert(self.bits() =~= start + bits::zeroes(done as nat));
        }
    }

    /// Appends the gamma code of `value`.
    pub fn push_gamma(&mut self, value: usize)
        requires
            old(self).wf(),
            0 < value <= 0xffff_ffff,
            old(self).bits().len() < usize::MAX - 100,
        ensures
            final(self).wf(),
            final(self).bits() == old(self).bits() + gamma_bits(value as nat),
    {
        let bits: u32 = ilog2(value);
        proof {
            lemma_log2(value as nat);
            lemma2_to64();
            if bits >= 32 {
                if bits > 32 {
                    lemma_pow2_strictly_increases(32, bits as nat);
                }
                assert(false);
            }
        }
        self.push_zeroes(bits);
        self.push_value(value as u32, bits + 1);
        assert(self.bits() =~= old(self).bits() + gamma_bits(value as nat));
    }

    /// Appends an extended length.
    pub fn push_extended_length(&mut self, value: usize)
        requires
            old(self).wf(),
            value < EXTENDED_LENGTHS,
            old(self).bits().len() < usize::MAX - 200,
        ensures
            final(self).wf(),
            final(self).bits() == old(self).bits() + extended_bits(value as nat),
    {
        let mut tier: u32 = 0;
        let mut base: usize = 0;
        let mut size: usize = 64;
        proof {
            lemma2_to64();
            assert(tier_base(0) == 0);
        }
        while value >= base + size
            invariant
                value < EXTENDED_LENGTHS,
                tier <= 25,
                base == tier_base(tier as nat),
                size == 64 * pow2(tier as nat),
                base <= value,
                tier_of(value as nat, tier as nat) == tier_of(value as nat, 0),
                base + size <= EXTENDED_LENGTHS,
            decreases 25 - tier,
        {
            proof {
                lemma2_to64();
                lemma_pow2_unfold((tier + 1) as nat);
                if tier >= 25 {
                    assert(false);
                }
                if tier + 1 < 25 {
                    lemma_pow2_strictly_increases((tier + 1) as nat, 25);
                }
            }
            base = base + size;
            size = size * 2;
            tier = tier + 1;
        }
        proof {
            lemma_tier_of(value as nat, tier as nat);
            lemma_pow2_unfold((tier + 1) as nat);
        }
        self.push_zeroes(tier);
        self.push_bit(true);
        self.push_value((value - base) as u32, tier + 6);
        assert(self.bits() =~= old(self).bits() + extended_bits(value as nat));
    }

    /// Takes the bytes.
    pub fn finish(self) -> (result: Vec<u8>)
        requires
            self.wf(),
        ensures
            result@ == bits::msb_pack(self.bits()),
    {
        proof {
            bits::lemma_msb_pack_unique(self.bytes@, self.bits());
        }
        self.bytes
    }
}

/// Collects bits from the low end of each byte.
pub struct LsbWriter {
    bytes: Vec<u8>,
    bit_len: usize,
}

impl LsbWriter {
    /// The bits written so far.
    pub closed spec fn bits(&self) -> Seq<bool> {
        Seq::new(self.bit_len as nat, |i: int| bits::lsb_bit(self.bytes@, i))
    }

    /// The bytes are just enough for the bits, and padded with zeroes.
    pub closed spec fn wf(&self) -> bool {
        &&& self.bytes.len() == bits::bytes_for(self.bit_len as nat)
        &&& forall|i: int|
            self.bit_len <= i < 8 * self.bytes.len() ==> !#[trigger] bits::lsb_bit(self.bytes@, i)
    }

    /// An empty writer with room for about half a byte per symbol.
    pub fn with_capacity(symbol_count: usize) -> (result: Self)
        ensures
            result.wf(),
            result.bits() == Seq::<bool>::empty(),
    {
        let result = LsbWriter { bytes: Vec::with_capacity(symbol_count / 2), bit_len: 0 };
        assert(result.bits() =~= Seq::<bool>::empty());
        result
    }

    fn push_bit(&mut self, bit: bool)
        requires
            old(self).wf(),
            old(self).bits().len() < usize::MAX - 8,
        ensures
            final(self).wf(),
            final(self).bits() == old(self).bits().push(bit),
    {
        let ghost before = self.bytes@;
        if self.bit_len % 8 == 0 {
            self.bytes.push(0);
        }
        let ghost padded = self.bytes@;
        proof {
            assert forall|i: int| 0 <= i < 8 * padded.len() implies #[trigger] bits::lsb_bit(padded, i) == (i
                < self.bit_len && bits::lsb_bit(before, i)) by {
                if i < 8 * before.len() {
                    assert(padded[i / 8] == before[i / 8]);
                    assert(i >= self.bit_len ==> !bits::lsb_bit(before, i));
                } else {
                    assert(padded[i / 8] == 0);
                }
            }
        }
        if bit {
            let last: usize = self.bit_len / 8;
            let byte: u8 = with_bit(self.bytes[last], self.bit_len % 8);
            self.bytes.set(last, byte);
        }
        proof {
            let at = self.bit_len as int;
            assert forall|i: int| 0 <= i < 8 * self.bytes@.len() implies #[trigger] bits::lsb_bit(
                self.bytes@,
                i,
            ) == (if i == at {
                bit
            } else {
                bits::lsb_bit(padded, i)
            }) by {
                assert(!bits::lsb_bit(padded, at));
                if bit && i / 8 == at / 8 {
                    assert((i % 8 == at % 8) == (i == at));
                    assert(bits::lsb_bit(padded, i) == bits::bit_of(padded[at / 8], i % 8));
                }
            }
        }
        self.bit_len = self.bit_len + 1;
        assert(self.bits() =~= old(self).bits().push(bit));
    }

    /// Appends the low `bit_count` bits of `code`, lowest first.
    pub fn push(&mut self, code: u16, bit_count: u8)
        requires
            old(self).wf(),
            bit_count <= 16,
            old(self).bits().len() + bit_count < usize::MAX - 8,
        ensures
            final(self).wf(),
            final(self).bits() == old(self).bits() + bits::code_bits(code as nat, bit_count as nat),
    {
        let ghost start = self.bits();
        let mut shift: u8 = 0;
        assert(start + bits::code_bits(code as nat, 0) =~= start);
        while shift < bit_count
            invariant
                shift <= bit_count <= 16,
                self.wf(),
                start.len() + bit_count < usize::MAX - 8,
                self.bits() == start + bits::code_bits(code as nat, shift as nat),
            decreases bit_count - shift,
        {
            proof {
                bits::lemma_code_bits_len(code as nat, shift as nat);
                vstd::bits::lemma_u16_shr_is_div(code, shift as u16);
            }
            let low: u16 = (code >> (shift as u16)) % 2;
            self.push_bit(low != 0);
            shift = shift + 1;
            assert(self.bits() =~= start + bits::code_bits(code as nat, shift as nat));
        }
    }

    /// Takes the bytes.
    pub fn finish(self) -> (result: Vec<u8>)
        requires
            self.wf(),
        ensures
            result@ == bits::lsb_pack(self.bits()),
    {
        proof {
            bits::lemma_lsb_pack_unique(self.bytes@, self.bits());
        }
        self.bytes
    }
}

} // verus!
