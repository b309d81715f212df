//! Bit readers.

use super::bits;
use super::bits::bit_at;
use super::writers;
use super::writers::ilog2;
use super::KrakenError;
use vstd::arithmetic::power2::{lemma2_to64, lemma_pow2_pos, lemma_pow2_strictly_increases, lemma_pow2_unfold, pow2};
use vstd::prelude::*;

verus! {

// ---------------------------------------------------------------------------
// Reading from one end
// ---------------------------------------------------------------------------

/// The number that `count` bits at `at` spell, and where they end.
pub open spec fn read_bits(bits: Seq<bool>, at: nat, count: nat) -> Option<(nat, nat)> {
    if count > usize::BITS || at + count > bits.len() {
        None
    } else {
        Some((bits::msb_value(bits.subrange(at as int, (at + count) as int)), at + count))
    }
}

/// A number written as that many zeroes and a one.
pub open spec fn read_unary(bits: Seq<bool>, at: nat) -> Option<(nat, nat)> {
    let zeroes = bits::zero_run(bits, at);
    if zeroes <= 255 && at + zeroes < bits.len() {
        Some((zeroes, at + zeroes + 1))
    } else {
        None
    }
}

/// The number of zeroes before the next one, if it is near.
pub open spec fn peek_zeroes(bits: Seq<bool>, at: nat) -> Option<nat> {
    let zeroes = bits::zero_run(bits, at);
    if zeroes <= 23 && at + zeroes < bits.len() {
        Some(zeroes)
    } else {
        None
    }
}

/// A run length: `z` zeroes announce a number of `z + 2` bits.
pub open spec fn read_gamma_run(bits: Seq<bool>, at: nat) -> Option<(nat, nat)> {
    match peek_zeroes(bits, at) {
        None => None,
        Some(zeroes) => match read_bits(bits, at, 2 * (zeroes + 1)) {
            None => None,
            Some((value, next)) => if value == 0 {
                None
            } else {
                Some(((value - 1) as nat, next))
            },
        },
    }
}

/// A number whose tier is written in unary and that has `forced` more bits.
pub open spec fn read_gamma_x(bits: Seq<bool>, at: nat, forced: nat) -> Option<(nat, nat)> {
    match peek_zeroes(bits, at) {
        None => None,
        Some(zeroes) => match read_bits(bits, at, zeroes + forced + 1) {
            None => None,
            Some((prefix, next)) => if zeroes == 0 {
                None
            } else {
                Some((prefix + ((zeroes - 1) * pow2(forced)) as nat, next))
            },
        },
    }
}

/// A number below `range` in a truncated binary code.
pub open spec fn read_truncated(bits: Seq<bool>, at: nat, range: nat) -> Option<(nat, nat)> {
    if range <= 1 {
        Some((0, at))
    } else {
        let width = writers::log2((range - 1) as nat) + 1;
        match read_bits(bits, at, width) {
            None => None,
            Some((value, next)) => {
                let cutoff = pow2(width) - range;
                if value / 2 >= cutoff {
                    Some(((value - cutoff) as nat, next))
                } else {
                    Some((value / 2, (next - 1) as nat))
                }
            },
        }
    }
}

proof fn lemma_usize_bits()
    ensures
        usize::BITS == 32 || usize::BITS == 64,
        pow2(usize::BITS as nat) == usize::MAX + 1,
{
    lemma2_to64();
}

pub proof fn lemma_msb_value_push(bits: Seq<bool>, from: int, to: int)
    requires
        0 <= from <= to < bits.len(),
    ensures
        bits::msb_value(bits.subrange(from, to + 1)) == 2 * bits::msb_value(bits.subrange(from, to))
            + if bits[to] {
            1nat
        } else {
            0nat
        },
{
    assert(bits.subrange(from, to + 1).drop_last() =~= bits.subrange(from, to));
}

pub proof fn lemma_lsb_value_push(bits: Seq<bool>, from: int, to: int)
    requires
        0 <= from <= to < bits.len(),
    ensures
        bits::lsb_value(bits.subrange(from, to + 1)) == bits::lsb_value(bits.subrange(from, to))
            + if bits[to] {
            pow2((to - from) as nat)
        } else {
            0nat
        },
{
    assert(bits.subrange(from, to + 1).drop_last() =~= bits.subrange(from, to));
}

pub proof fn lemma_zero_run(bits: Seq<bool>, at: nat, n: nat)
    requires
        at + n <= bits.len(),
        forall|i: int| at <= i < at + n ==> !bits[i],
        at + n < bits.len() ==> bits[(at + n) as int],
    ensures
        bits::zero_run(bits, at) == n,
    decreases n,
{
    if n > 0 {
        assert(!bits[at as int]);
        lemma_zero_run(bits, at + 1, (n - 1) as nat);
    }
}

proof fn lemma_zero_run_at_least(bits: Seq<bool>, at: nat, n: nat)
    requires
        at + n <= bits.len(),
        forall|i: int| at <= i < at + n ==> !bits[i],
    ensures
        bits::zero_run(bits, at) >= n,
        bits::zero_run(bits, at) == n + bits::zero_run(bits, at + n),
    decreases n,
{
    if n > 0 {
        assert(!bits[at as int]);
        lemma_zero_run_at_least(bits, at + 1, (n - 1) as nat);
    }
}

/// Reads bits from the high end of each byte.
pub struct MsbReader<'a> {
    bytes: &'a [u8],
    position: usize,
}

impl<'a> MsbReader<'a> {
    /// All bits of the input.
    pub closed spec fn bits(&self) -> Seq<bool> {
        bits::msb_bits(self.bytes@)
    }

    /// The next bit.
    pub closed spec fn at(&self) -> nat {
        self.position as nat
    }

    pub closed spec fn wf(&self) -> bool {
        self.position <= 8 * self.bytes@.len() <= usize::MAX
    }

    /// Reading stays within the input.
    pub proof fn lemma_bound(&self)
        requires
            self.wf(),
        ensures
            self.at() <= self.bits().len() <= usize::MAX,
    {
    }

    pub fn new(bytes: &'a [u8]) -> (result: Self)
        requires
            8 * bytes@.len() <= usize::MAX,
        ensures
            result.wf(),
            result.bits() == bits::msb_bits(bytes@),
            result.at() == 0,
    {
        MsbReader { bytes, position: 0 }
    }

    fn bit(&self, position: usize) -> (bit: bool)
        requires
            self.wf(),
            position < self.bits().len(),
        ensures
            bit == self.bits()[position as int],
    {
        bit_at(self.bytes[position / 8], 7 - position % 8)
    }

    /// Reads a number of `count` bits.
    pub fn read(&mut self, count: usize) -> (result: Option<usize>)
        requires
            old(self).wf(),
        ensures
            final(self).wf(),
            final(self).bits() == old(self).bits(),
            match read_bits(old(self).bits(), old(self).at(), count as nat) {
                None => result is None && final(self).at() == old(self).at(),
                Some((value, next)) => result == Some(value as usize) && value <= usize::MAX
                    && final(self).at() == next,
            },
    {
        let total: usize = self.bytes.len() * 8;
        if count > usize::BITS as usize || count > total - self.position {
            return None;
        }
        let ghost bits = self.bits();
        let ghost at = self.at();
        let mut value: usize = 0;
        let mut done: usize = 0;
        proof {
            assert(bits.subrange(at as int, at as int) =~= Seq::<bool>::empty());
            lemma2_to64();
            lemma_usize_bits();
        }
        while done < count
            invariant
                done <= count <= usize::BITS,
                pow2(usize::BITS as nat) == usize::MAX + 1,
                self.wf(),
                self.bits() == bits,
                self.at() == at + done,
                at + count <= bits.len(),
                value == bits::msb_value(bits.subrange(at as int, (at + done) as int)),
                value < pow2(done as nat),
            decreases count - done,
        {
            let bit: bool = self.bit(self.position);
            proof {
                lemma_msb_value_push(bits, at as int, (at + done) as int);
                lemma_pow2_unfold((done + 1) as nat);
                if done + 1 < usize::BITS {
                    lemma_pow2_strictly_increases((done + 1) as nat, usize::BITS as nat);
                }
            }
            value = value * 2 + if bit {
                1
            } else {
                0
            };
            self.position = self.position + 1;
            done = done + 1;
        }
        Some(value)
    }

    /// Reads a number in unary.
    pub fn read_unary(&mut self) -> (result: Option<usize>)
        requires
            old(self).wf(),
        ensures
            final(self).wf(),
            final(self).bits() == old(self).bits(),
            match read_unary(old(self).bits(), old(self).at()) {
                None => result is None,
                Some((value, next)) => result == Some(value as usize) && final(self).at() == next,
            },
    {
        let total: usize = self.bytes.len() * 8;
        let ghost bits = self.bits();
        let ghost at = self.at();
        let mut value: usize = 0;
        loop
            invariant
                self.wf(),
                self.bits() == bits,
                bits == old(self).bits(),
                at == old(self).at(),
                total == bits.len(),
                self.at() == at + value,
                value <= 255,
                forall|i: int| at <= i < at + value ==> !bits[i],
            decreases 256 - value,
        {
            if self.position >= total {
                proof {
                    lemma_zero_run(bits, at, value as nat);
                }
                return None;
            }
            let bit: bool = self.bit(self.position);
            self.position = self.position + 1;
            if bit {
                proof {
                    lemma_zero_run(bits, at, value as nat);
                }
                return Some(value);
            }
            value = value + 1;
            if value > 255 {
                proof {
                    lemma_zero_run_at_least(bits, at, value as nat);
                }
                return None;
            }
        }
    }

    /// Counts the zeroes before the next one.
    pub fn peek_zeroes(&self) -> (result: Option<usize>)
        requires
            self.wf(),
        ensures
            match peek_zeroes(self.bits(), self.at()) {
                None => result is None,
                Some(zeroes) => result == Some(zeroes as usize),
            },
    {
        let total: usize = self.bytes.len() * 8;
        let ghost at = self.at();
        let mut position: usize = self.position;
        while position < total
            invariant
                self.wf(),
                total == self.bits().len(),
                at == self.at(),
                self.position <= position <= total,
                position - self.position <= 23,
                forall|i: int| at <= i < position ==> !self.bits()[i],
            decreases total - position,
        {
            if self.bit(position) {
                proof {
                    lemma_zero_run(self.bits(), at, (position - at) as nat);
                }
                return Some(position - self.position);
            }
            position = position + 1;
            if position - self.position > 23 {
                proof {
                    lemma_zero_run_at_least(self.bits(), at, (position - at) as nat);
                }
                return None;
            }
        }
        proof {
            lemma_zero_run(self.bits(), at, (position - at) as nat);
        }
        None
    }

    /// Reads a run length.
    pub fn read_gamma_run(&mut self) -> (result: Option<usize>)
        requires
            old(self).wf(),
        ensures
            final(self).wf(),
            final(self).bits() == old(self).bits(),
            match read_gamma_run(old(self).bits(), old(self).at()) {
                None => result is None,
                Some((value, next)) => result == Some(value as usize) && value < usize::MAX
                    && final(self).at() == next,
            },
    {
        let zeroes: usize = match self.peek_zeroes() {
            Some(zeroes) => zeroes,
            None => return None,
        };
        match self.read((zeroes + 1) * 2) {
            Some(value) => if value == 0 {
                None
            } else {
                Some(value - 1)
            },
            None => None,
        }
    }

    /// Reads a number whose tier is in unary and that has `forced_bits` more bits.
    pub fn read_gamma_x(&mut self, forced_bits: usize) -> (result: Option<usize>)
        requires
            old(self).wf(),
            forced_bits <= 3,
        ensures
            final(self).wf(),
            final(self).bits() == old(self).bits(),
            match read_gamma_x(old(self).bits(), old(self).at(), forced_bits as nat) {
                None => result is None,
                Some((value, next)) => result == Some(value as usize) && value <= 0x0fff_ffff
                    && final(self).at() == next,
            },
    {
        let zeroes: usize = match self.peek_zeroes() {
            Some(zeroes) => zeroes,
            None => return None,
        };
        let ghost bits = self.bits();
        let ghost at = self.at();
        let prefix: usize = match self.read(zeroes + forced_bits + 1) {
            Some(prefix) => prefix,
            None => return None,
        };
        if zeroes == 0 {
            return None;
        }
        proof {
            lemma2_to64();
            let width = (zeroes + forced_bits + 1) as nat;
            bits::lemma_bits_of_msb_value(bits.subrange(at as int, (at + width) as int));
            if width < 27 {
                lemma_pow2_strictly_increases(width, 27);
            }
        }
        let size: usize = power_of_two(forced_bits);
        proof {
            if forced_bits < 3 {
                lemma_pow2_strictly_increases(forced_bits as nat, 3);
            }
            assert(0 <= (zeroes - 1) * size <= 22 * 8) by (nonlinear_arith)
                requires
                    1 <= zeroes <= 23,
                    0 <= size <= 8,
            ;
        }
        let tier: usize = (zeroes - 1) * size;
        Some(prefix + tier)
    }

    /// Reads a number below `range` in a truncated binary code.
    pub fn read_truncated(&mut self, range: usize) -> (result: Option<usize>)
        requires
            old(self).wf(),
            range <= 0x10000,
        ensures
            final(self).wf(),
            final(self).bits() == old(self).bits(),
            match read_truncated(old(self).bits(), old(self).at(), range as nat) {
                None => result is None,
                Some((value, next)) => result == Some(value as usize) && value <= range
                    && final(self).at() == next,
            },
    {
        if range <= 1 {
            return Some(0);
        }
        let ghost bits = self.bits();
        let ghost at = self.at();
        let log: u32 = ilog2(range - 1);
        proof {
            writers::lemma_log2((range - 1) as nat);
            lemma2_to64();
            if log >= 16 {
                if log > 16 {
                    lemma_pow2_strictly_increases(16, log as nat);
                }
                assert(false);
            }
        }
        let width: usize = log as usize + 1;
        let value: usize = match self.read(width) {
            Some(value) => value,
            None => return None,
        };
        let size: usize = power_of_two(width);
        proof {
            bits::lemma_bits_of_msb_value(bits.subrange(at as int, (at + width) as int));
        }
        let cutoff: usize = size - range;
        if value / 2 >= cutoff {
            Some(value - cutoff)
        } else {
            self.position = self.position - 1;
            Some(value / 2)
        }
    }

    /// Counts the bytes that were read from.
    pub fn consumed_bytes(&self) -> (result: usize)
        requires
            self.wf(),
        ensures
            result == bits::bytes_for(self.at()),
            8 * result <= self.bits().len(),
    {
        if self.position % 8 == 0 {
            self.position / 8
        } else {
            self.position / 8 + 1
        }
    }
}

// ---------------------------------------------------------------------------
// Reading from both ends
// ---------------------------------------------------------------------------

/// Bits of which `other` are read from the far end: the number that the next
/// `count` bits spell, highest first.
pub open spec fn paired_read(bits: Seq<bool>, at: nat, other: nat, count: nat) -> Option<(nat, nat)> {
    if at + other + count <= bits.len() {
        Some((bits::msb_value(bits.subrange(at as int, (at + count) as int)), at + count))
    } else {
        None
    }
}

/// A number of at most `limit`, written as that many zeroes and a one.
pub open spec fn paired_unary(bits: Seq<bool>, at: nat, other: nat, limit: nat) -> Option<
    (nat, nat),
> {
    let zeroes = bits::zero_run(bits, at);
    if zeroes <= limit && at + zeroes + other < bits.len() {
        Some((zeroes, at + zeroes + 1))
    } else {
        None
    }
}

/// A gamma code, less one.
pub open spec fn paired_gamma_minus_one(bits: Seq<bool>, at: nat, other: nat) -> Option<(nat, nat)> {
    match paired_unary(bits, at, other, 31) {
        None => None,
        Some((zeroes, next)) => match paired_read(bits, next, other, zeroes) {
            None => None,
            Some((tail, next)) => Some(((pow2(zeroes) + tail - 1) as nat, next)),
        },
    }
}

/// An extended length: its tier in unary, then its place there.
pub open spec fn paired_extended_length(bits: Seq<bool>, at: nat, other: nat) -> Option<(nat, nat)> {
    match paired_unary(bits, at, other, 25) {
        None => None,
        Some((tier, next)) => match paired_read(bits, next, other, tier + 6) {
            None => None,
            Some((payload, next)) => Some((writers::tier_base(tier) + payload, next)),
        },
    }
}

/// A distance whose tier and low four bits are packed in a byte.
pub open spec fn distance_value(packed: u8, extra: nat) -> nat {
    (8 + (pow2((packed / 16) as nat) - 1) * 256 + packed % 16 + 16 * extra) as nat
}

/// A distance whose tier and low four bits are packed in a byte.
pub open spec fn paired_distance(bits: Seq<bool>, at: nat, other: nat, packed: u8) -> Option<
    (nat, nat),
> {
    match paired_read(bits, at, other, (packed / 16 + 4) as nat) {
        None => None,
        Some((extra, next)) => Some((distance_value(packed, extra), next)),
    }
}

/// A negative offset: `8 + command % 8` and the extra bits spell its distance plus eight.
pub open spec fn scaled_offset_value(command: u8, bit_count: nat, extra: nat) -> Option<int> {
    let value = (8 + command % 8) * pow2(bit_count) + extra;
    if bit_count > 26 || value > i32::MAX {
        None
    } else {
        Some(8 - value)
    }
}

/// A negative offset with as many extra bits as the command's high five bits say.
pub open spec fn paired_scaled_offset(bits: Seq<bool>, at: nat, other: nat, command: u8) -> Option<
    (int, nat),
> {
    match paired_read(bits, at, other, (command / 8) as nat) {
        None => None,
        Some((extra, next)) => match scaled_offset_value(command, (command / 8) as nat, extra) {
            None => None,
            Some(value) => Some((value, next)),
        },
    }
}

/// Reads the high ends of bytes from the front and, byte by byte, from the back.
pub struct PairedBits<'a> {
    bytes: &'a [u8],
    front_bits: usize,
    back_bits: usize,
    stream_offset: usize,
}

impl<'a> PairedBits<'a> {
    /// The bits as the front sees them.
    pub closed spec fn front(&self) -> Seq<bool> {
        bits::msb_bits(self.bytes@)
    }

    /// The bits as the back sees them.
    pub closed spec fn back(&self) -> Seq<bool> {
        bits::msb_bits(self.bytes@.reverse())
    }

    /// How many bits were read from the front.
    pub closed spec fn front_at(&self) -> nat {
        self.front_bits as nat
    }

    /// How many bits were read from the back.
    pub closed spec fn back_at(&self) -> nat {
        self.back_bits as nat
    }

    /// Where the bytes stand in the stream.
    pub closed spec fn offset(&self) -> usize {
        self.stream_offset
    }

    pub closed spec fn wf(&self) -> bool {
        self.front_bits + self.back_bits <= 8 * self.bytes@.len() <= usize::MAX
    }

    /// The error that every failed read reports.
    pub open spec fn error(&self) -> KrakenError {
        KrakenError::InvalidQuantum { offset: self.offset() }
    }

    /// The same bytes are read, from the same place in the stream.
    pub open spec fn same_source(&self, other: &Self) -> bool {
        &&& self.front() == other.front()
        &&& self.back() == other.back()
        &&& self.offset() == other.offset()
    }

    /// Reading stays within the input.
    pub proof fn lemma_bound(&self)
        requires
            self.wf(),
        ensures
            self.front_at() + self.back_at() <= self.front().len() <= usize::MAX,
            self.front().len() == self.back().len(),
    {
    }

    pub fn new(bytes: &'a [u8], stream_offset: usize) -> (result: Self)
        requires
            8 * bytes@.len() <= usize::MAX,
        ensures
            result.wf(),
            result.front() == bits::msb_bits(bytes@),
            result.back() == bits::msb_bits(bytes@.reverse()),
            result.front_at() == 0,
            result.back_at() == 0,
            result.offset() == stream_offset,
    {
        PairedBits { bytes, front_bits: 0, back_bits: 0, stream_offset }
    }

    fn front_bit(&mut self) -> (result: Result<bool, KrakenError>)
        requires
            old(self).wf(),
        ensures
            final(self).wf(),
            final(self).same_source(old(self)),
            final(self).back_at() == old(self).back_at(),
            if old(self).front_at() + old(self).back_at() < old(self).front().len() {
                &&& result == Ok::<bool, KrakenError>(
                    old(self).front()[old(self).front_at() as int],
                )
                &&& final(self).front_at() == old(self).front_at() + 1
            } else {
                result == Err::<bool, KrakenError>(old(self).error())
            },
    {
        if self.front_bits + self.back_bits >= self.bytes.len() * 8 {
            return Err(KrakenError::InvalidQuantum { offset: self.stream_offset });
        }
        let bit: bool = bit_at(self.bytes[self.front_bits / 8], 7 - self.front_bits % 8);
        self.front_bits = self.front_bits + 1;
        Ok(bit)
    }

    fn back_bit(&mut self) -> (result: Result<bool, KrakenError>)
        requires
            old(self).wf(),
        ensures
            final(self).wf(),
            final(self).same_source(old(self)),
            final(self).front_at() == old(self).front_at(),
            if old(self).front_at() + old(self).back_at() < old(self).back().len() {
                &&& result == Ok::<bool, KrakenError>(old(self).back()[old(self).back_at() as int])
                &&& final(self).back_at() == old(self).back_at() + 1
            } else {
                result == Err::<bool, KrakenError>(old(self).error())
            },
    {
        if self.front_bits + self.back_bits >= self.bytes.len() * 8 {
            return Err(KrakenError::InvalidQuantum { offset: self.stream_offset });
        }
        let byte: usize = self.bytes.len() - 1 - self.back_bits / 8;
        let bit: bool = bit_at(self.bytes[byte], 7 - self.back_bits % 8);
        self.back_bits = self.back_bits + 1;
        Ok(bit)
    }

    /// Reads a number of `count` bits from the front.
    pub fn read_front(&mut self, count: u32) -> (result: Result<u32, KrakenError>)
        requires
            old(self).wf(),
            count <= 32,
        ensures
            final(self).wf(),
            final(self).same_source(old(self)),
            final(self).back_at() == old(self).back_at(),
            match paired_read(
                old(self).front(),
                old(self).front_at(),
                old(self).back_at(),
                count as nat,
            ) {
                None => result == Err::<u32, KrakenError>(old(self).error()),
                Some((value, next)) => result == Ok::<u32, KrakenError>(value as u32) && value < pow2(
                    count as nat,
                ) && final(self).front_at() == next,
            },
    {
        let ghost bits = self.front();
        let ghost at = self.front_at();
        let ghost other = self.back_at();
        let mut value: u32 = 0;
        let mut done: u32 = 0;
        proof {
            lemma2_to64();
            assert(bits.subrange(at as int, at as int) =~= Seq::<bool>::empty());
        }
        while done < count
            invariant
                done <= count <= 32,
                self.wf(),
                self.same_source(old(self)),
                self.back_at() == other == old(self).back_at(),
                bits == old(self).front(),
                at == old(self).front_at(),
                self.front_at() == at + done,
                at + other + done <= bits.len(),
                value == bits::msb_value(bits.subrange(at as int, (at + done) as int)),
                value < pow2(done as nat),
            decreases count - done,
        {
            let bit: bool = match self.front_bit() {
                Ok(bit) => bit,
                Err(error) => return Err(error),
            };
            proof {
                lemma_msb_value_push(bits, at as int, (at + done) as int);
                lemma_pow2_unfold((done + 1) as nat);
                lemma2_to64();
                if done + 1 < 32 {
                    lemma_pow2_strictly_increases((done + 1) as nat, 32);
                }
            }
            value = value * 2 + if bit {
                1
            } else {
                0
            };
            done = done + 1;
        }
        Ok(value)
    }

    /// Reads a number of at most `limit` in unary from the front.
    fn read_front_unary(&mut self, limit: u32) -> (result: Result<u32, KrakenError>)
        requires
            old(self).wf(),
            limit < 100,
        ensures
            final(self).wf(),
            final(self).same_source(old(self)),
            final(self).back_at() == old(self).back_at(),
            match paired_unary(
                old(self).front(),
                old(self).front_at(),
                old(self).back_at(),
                limit as nat,
            ) {
                None => result == Err::<u32, KrakenError>(old(self).error()),
                Some((value, next)) => result == Ok::<u32, KrakenError>(value as u32)
                    && final(self).front_at() == next,
            },
    {
        let ghost bits = self.front();
        let ghost at = self.front_at();
        let ghost other = self.back_at();
        let mut value: u32 = 0;
        loop
            invariant
                value <= limit < 100,
                self.wf(),
                self.same_source(old(self)),
                self.back_at() == other == old(self).back_at(),
                bits == old(self).front(),
                at == old(self).front_at(),
                self.front_at() == at + value,
                at + other + value <= bits.len(),
                forall|i: int| at <= i < at + value ==> !bits[i],
            decreases limit - value,
        {
            proof {
                lemma_zero_run_at_least(bits, at, value as nat);
            }
            let bit: bool = match self.front_bit() {
                Ok(bit) => bit,
                Err(error) => return Err(error),
            };
            if bit {
                proof {
                    lemma_zero_run(bits, at, value as nat);
                }
                return Ok(value);
            }
            value = value + 1;
            proof {
                lemma_zero_run_at_least(bits, at, value as nat);
            }
            if value > limit {
                return Err(KrakenError::InvalidQuantum { offset: self.stream_offset });
            }
        }
    }

    /// Reads an extended length from the front.
    pub fn read_front_extended_length(&mut self) -> (result: Result<usize, KrakenError>)
        requires
            old(self).wf(),
        ensures
            final(self).wf(),
            final(self).same_source(old(self)),
            final(self).back_at() == old(self).back_at(),
            match paired_extended_length(
                old(self).front(),
                old(self).front_at(),
                old(self).back_at(),
            ) {
                None => result == Err::<usize, KrakenError>(old(self).error()),
                Some((value, next)) => result == Ok::<usize, KrakenError>(value as usize)
                    && value <= 0xffff_ffff && final(self).front_at() == next,
            },
    {
        let tier: u32 = self.read_front_unary(25)?;
        let payload: u32 = self.read_front(tier + 6)?;
        let size: usize = power_of_two(tier as usize);
        proof {
            lemma2_to64();
            if tier < 25 {
                lemma_pow2_strictly_increases(tier as nat, 25);
                lemma_pow2_strictly_increases((tier + 6) as nat, 31);
            }
        }
        Ok((size - 1) * 64 + payload as usize)
    }

    /// Reads a distance from the front.
    pub fn read_front_distance(&mut self, packed: u8) -> (result: Result<usize, KrakenError>)
        requires
            old(self).wf(),
        ensures
            final(self).wf(),
            final(self).same_source(old(self)),
            final(self).back_at() == old(self).back_at(),
            match paired_distance(
                old(self).front(),
                old(self).front_at(),
                old(self).back_at(),
                packed,
            ) {
                None => result == Err::<usize, KrakenError>(old(self).error()),
                Some((value, next)) => result == Ok::<usize, KrakenError>(value as usize)
                    && 8 <= value <= 0x7fff_ffff && final(self).front_at() == next,
            },
    {
        let extra: u32 = self.read_front((packed / 16) as u32 + 4)?;
        proof {
            lemma2_to64();
            lemma_pow2_pos((packed / 16) as nat);
            if packed / 16 < 15 {
                lemma_pow2_strictly_increases((packed / 16) as nat, 15);
                lemma_pow2_strictly_increases((packed / 16 + 4) as nat, 19);
            }
        }
        Ok(decode_distance_value(packed, extra))
    }

    /// Reads a scaled offset from the front.
    pub fn read_front_scaled_offset(&mut self, command: u8) -> (result: Result<i32, KrakenError>)
        requires
            old(self).wf(),
        ensures
            final(self).wf(),
            final(self).same_source(old(self)),
            final(self).back_at() == old(self).back_at(),
            match paired_scaled_offset(
                old(self).front(),
                old(self).front_at(),
                old(self).back_at(),
                command,
            ) {
                None => result == Err::<i32, KrakenError>(old(self).error()),
                Some((value, next)) => result == Ok::<i32, KrakenError>(value as i32)
                    && i32::MIN < value <= 8 && final(self).front_at() == next,
            },
    {
        let bit_count: u32 = (command / 8) as u32;
        let extra: u32 = self.read_front(bit_count)?;
        proof {
            lemma2_to64();
            lemma_pow2_strictly_increases(bit_count as nat, 32);
        }
        decode_scaled_offset_value(command, bit_count, extra, self.stream_offset)
    }

    /// Reads a number of `count` bits from the back.
    pub fn read_back(&mut self, count: u32) -> (result: Result<u32, KrakenError>)
        requires
            old(self).wf(),
            count <= 32,
        ensures
            final(self).wf(),
            final(self).same_source(old(self)),
            final(self).front_at() == old(self).front_at(),
            match paired_read(
                old(self).back(),
                old(self).back_at(),
                old(self).front_at(),
                count as nat,
            ) {
                None => result == Err::<u32, KrakenError>(old(self).error()),
                Some((value, next)) => result == Ok::<u32, KrakenError>(value as u32) && value < pow2(
                    count as nat,
                ) && final(self).back_at() == next,
            },
    {
        let ghost bits = self.back();
        let ghost at = self.back_at();
        let ghost other = self.front_at();
        let mut value: u32 = 0;
        let mut done: u32 = 0;
        proof {
            lemma2_to64();
            assert(bits.subrange(at as int, at as int) =~= Seq::<bool>::empty());
        }
        while done < count
            invariant
                done <= count <= 32,
                self.wf(),
                self.same_source(old(self)),
                self.front_at() == other == old(self).front_at(),
                bits == old(self).back(),
                at == old(self).back_at(),
                self.back_at() == at + done,
                at + other + done <= bits.len(),
                value == bits::msb_value(bits.subrange(at as int, (at + done) as int)),
                value < pow2(done as nat),
            decreases count - done,
        {
            let bit: bool = match self.back_bit() {
                Ok(bit) => bit,
                Err(error) => return Err(error),
            };
            proof {
                lemma_msb_value_push(bits, at as int, (at + done) as int);
                lemma_pow2_unfold((done + 1) as nat);
                lemma2_to64();
                if done + 1 < 32 {
                    lemma_pow2_strictly_increases((done + 1) as nat, 32);
                }
            }
            value = value * 2 + if bit {
                1
            } else {
                0
            };
            done = done + 1;
        }
        Ok(value)
    }

    /// Reads a number of at most `limit` in unary from the back.
    fn read_back_unary(&mut self, limit: u32) -> (result: Result<u32, KrakenError>)
        requires
            old(self).wf(),
            limit < 100,
        ensures
            final(self).wf(),
            final(self).same_source(old(self)),
            final(self).front_at() == old(self).front_at(),
            match paired_unary(
                old(self).back(),
                old(self).back_at(),
                old(self).front_at(),
                limit as nat,
            ) {
                None => result == Err::<u32, KrakenError>(old(self).error()),
                Some((value, next)) => result == Ok::<u32, KrakenError>(value as u32)
                    && final(self).back_at() == next,
            },
    {
        let ghost bits = self.back();
        let ghost at = self.back_at();
        let ghost other = self.front_at();
        let mut value: u32 = 0;
        loop
            invariant
                value <= limit < 100,
                self.wf(),
                self.same_source(old(self)),
                self.front_at() == other == old(self).front_at(),
                bits == old(self).back(),
                at == old(self).back_at(),
                self.back_at() == at + value,
                at + other + value <= bits.len(),
                forall|i: int| at <= i < at + value ==> !bits[i],
            decreases limit - value,
        {
            proof {
                lemma_zero_run_at_least(bits, at, value as nat);
            }
            let bit: bool = match self.back_bit() {
                Ok(bit) => bit,
                Err(error) => return Err(error),
            };
            if bit {
                proof {
                    lemma_zero_run(bits, at, value as nat);
                }
                return Ok(value);
            }
            value = value + 1;
            proof {
                lemma_zero_run_at_least(bits, at, value as nat);
            }
            if value > limit {
                return Err(KrakenError::InvalidQuantum { offset: self.stream_offset });
            }
        }
    }

    /// Reads an extended length from the back.
    pub fn read_back_extended_length(&mut self) -> (result: Result<usize, KrakenError>)
        requires
            old(self).wf(),
        ensures
            final(self).wf(),
            final(self).same_source(old(self)),
            final(self).front_at() == old(self).front_at(),
            match paired_extended_length(
                old(self).back(),
                old(self).back_at(),
                old(self).front_at(),
            ) {
                None => result == Err::<usize, KrakenError>(old(self).error()),
                Some((value, next)) => result == Ok::<usize, KrakenError>(value as usize)
                    && value <= 0xffff_ffff && final(self).back_at() == next,
            },
    {
        let tier: u32 = self.read_back_unary(25)?;
        let payload: u32 = self.read_back(tier + 6)?;
        let size: usize = power_of_two(tier as usize);
        proof {
            lemma2_to64();
            if tier < 25 {
                lemma_pow2_strictly_increases(tier as nat, 25);
                lemma_pow2_strictly_increases((tier + 6) as nat, 31);
            }
        }
        Ok((size - 1) * 64 + payload as usize)
    }

    /// Reads a distance from the back.
    pub fn read_back_distance(&mut self, packed: u8) -> (result: Result<usize, KrakenError>)
        requires
            old(self).wf(),
        ensures
            final(self).wf(),
            final(self).same_source(old(self)),
            final(self).front_at() == old(self).front_at(),
            match paired_distance(
                old(self).back(),
                old(self).back_at(),
                old(self).front_at(),
                packed,
            ) {
                None => result == Err::<usize, KrakenError>(old(self).error()),
                Some((value, next)) => result == Ok::<usize, KrakenError>(value as usize)
                    && 8 <= value <= 0x7fff_ffff && final(self).back_at() == next,
            },
    {
        let extra: u32 = self.read_back((packed / 16) as u32 + 4)?;
        proof {
            lemma2_to64();
            lemma_pow2_pos((packed / 16) as nat);
            if packed / 16 < 15 {
                lemma_pow2_strictly_increases((packed / 16) as nat, 15);
                lemma_pow2_strictly_increases((packed / 16 + 4) as nat, 19);
            }
        }
        Ok(decode_distance_value(packed, extra))
    }

    /// Reads a scaled offset from the back.
    pub fn read_back_scaled_offset(&mut self, command: u8) -> (result: Result<i32, KrakenError>)
        requires
            old(self).wf(),
        ensures
            final(self).wf(),
            final(self).same_source(old(self)),
            final(self).front_at() == old(self).front_at(),
            match paired_scaled_offset(
                old(self).back(),
                old(self).back_at(),
                old(self).front_at(),
                command,
            ) {
                None => result == Err::<i32, KrakenError>(old(self).error()),
                Some((value, next)) => result == Ok::<i32, KrakenError>(value as i32)
                    && i32::MIN < value <= 8 && final(self).back_at() == next,
            },
    {
        let bit_count: u32 = (command / 8) as u32;
        let extra: u32 = self.read_back(bit_count)?;
        proof {
            lemma2_to64();
            lemma_pow2_strictly_increases(bit_count as nat, 32);
        }
        decode_scaled_offset_value(command, bit_count, extra, self.stream_offset)
    }

    /// Reads a gamma code, less one, from the back.
    pub fn read_back_gamma_minus_one(&mut self) -> (result: Result<usize, KrakenError>)
        requires
            old(self).wf(),
        ensures
            final(self).wf(),
            final(self).same_source(old(self)),
            final(self).front_at() == old(self).front_at(),
            match paired_gamma_minus_one(
                old(self).back(),
                old(self).back_at(),
                old(self).front_at(),
            ) {
                None => result == Err::<usize, KrakenError>(old(self).error()),
                Some((value, next)) => result == Ok::<usize, KrakenError>(value as usize)
                    && value <= 0xffff_ffff && final(self).back_at() == next,
            },
    {
        let zeroes: u32 = self.read_back_unary(31)?;
        let tail: u32 = self.read_back(zeroes)?;
        let size: usize = power_of_two(zeroes as usize);
        proof {
            lemma2_to64();
            if zeroes < 31 {
                lemma_pow2_strictly_increases(zeroes as nat, 31);
            }
        }
        Ok(size - 1 + tail as usize)
    }

    /// Requires that no byte was left out and at most one read from both ends.
    pub fn require_no_unread_bytes(&self) -> (result: Result<(), KrakenError>)
        requires
            self.wf(),
        ensures
            result == if no_unread_bytes(self.front().len(), self.front_at(), self.back_at()) {
                Ok::<(), KrakenError>(())
            } else {
                Err::<(), KrakenError>(self.error())
            },
    {
        let touched: usize = ceil_bytes(self.front_bits) + ceil_bytes(self.back_bits);
        if touched < self.bytes.len() || touched - self.bytes.len() > 1 {
            return Err(KrakenError::InvalidQuantum { offset: self.stream_offset });
        }
        Ok(())
    }
}

/// Of `total` bits read from both ends no byte was left out, and at most one was
/// read from both.
pub open spec fn no_unread_bytes(total: nat, front: nat, back: nat) -> bool {
    total <= 8 * (bits::bytes_for(front) + bits::bytes_for(back)) <= total + 8
}

/// Computes the number of bytes that hold `bits` bits.
pub fn ceil_bytes(bits: usize) -> (result: usize)
    ensures
        result == bits::bytes_for(bits as nat),
        result <= bits,
        result <= usize::MAX / 8 + 1,
{
    if bits % 8 == 0 {
        bits / 8
    } else {
        bits / 8 + 1
    }
}

/// Computes the distance of a packed byte and its extra bits.
pub fn decode_distance_value(packed: u8, extra: u32) -> (result: usize)
    requires
        extra < 0x10_0000,
    ensures
        result == distance_value(packed, extra as nat),
{
    let size: usize = power_of_two((packed / 16) as usize);
    proof {
        lemma2_to64();
        if packed / 16 < 15 {
            lemma_pow2_strictly_increases((packed / 16) as nat, 15);
        }
    }
    8 + (size - 1) * 256 + (packed % 16) as usize + 16 * (extra as usize)
}

/// Computes the offset of a command and its extra bits.
pub fn decode_scaled_offset_value(command: u8, bit_count: u32, extra: u32, offset: usize) -> (result:
    Result<i32, KrakenError>)
    ensures
        match scaled_offset_value(command, bit_count as nat, extra as nat) {
            None => result == Err::<i32, KrakenError>(KrakenError::InvalidQuantum { offset }),
            Some(value) => result == Ok::<i32, KrakenError>(value as i32) && i32::MIN < value <= 8,
        },
{
    if bit_count > 26 {
        return Err(KrakenError::InvalidQuantum { offset });
    }
    let base: u64 = 8 + (command % 8) as u64;
    let size: u64 = power_of_two(bit_count as usize) as u64;
    proof {
        lemma2_to64();
        if bit_count < 26 {
            lemma_pow2_strictly_increases(bit_count as nat, 26);
        }
        assert(0 <= base * size <= 15 * 0x400_0000) by (nonlinear_arith)
            requires
                0 <= base <= 15,
                0 <= size <= 0x400_0000,
        ;
    }
    let value: u64 = base * size + extra as u64;
    if value > 0x7fff_ffff {
        return Err(KrakenError::InvalidQuantum { offset });
    }
    Ok(8 - value as i32)
}

// ---------------------------------------------------------------------------
// Reading low-first codes
// ---------------------------------------------------------------------------

/// Reads the low ends of bytes, from the first byte on or from the last one back.
pub struct HuffBits<'a> {
    bytes: &'a [u8],
    bit: usize,
    reverse_bytes: bool,
}

impl<'a> HuffBits<'a> {
    /// All bits in the order in which they are read.
    pub closed spec fn bits(&self) -> Seq<bool> {
        if self.reverse_bytes {
            bits::lsb_bits(self.bytes@.reverse())
        } else {
            bits::lsb_bits(self.bytes@)
        }
    }

    /// The next bit.
    pub closed spec fn at(&self) -> nat {
        self.bit as nat
    }

    pub closed spec fn wf(&self) -> bool {
        self.bit <= 8 * self.bytes@.len() <= usize::MAX
    }

    /// Reading stays within the input.
    pub proof fn lemma_bound(&self)
        requires
            self.wf(),
        ensures
            self.at() <= self.bits().len() <= usize::MAX,
    {
    }

    pub fn new(bytes: &'a [u8], reverse_bytes: bool) -> (result: Self)
        requires
            8 * bytes@.len() <= usize::MAX,
        ensures
            result.wf(),
            result.at() == 0,
            result.bits() == if reverse_bytes {
                bits::lsb_bits(bytes@.reverse())
            } else {
                bits::lsb_bits(bytes@)
            },
    {
        HuffBits { bytes, bit: 0, reverse_bytes }
    }

    /// Reads one bit.
    pub fn read(&mut self, offset: usize) -> (result: Result<bool, KrakenError>)
        requires
            old(self).wf(),
        ensures
            final(self).wf(),
            final(self).bits() == old(self).bits(),
            if old(self).at() < old(self).bits().len() {
                &&& result == Ok::<bool, KrakenError>(old(self).bits()[old(self).at() as int])
                &&& final(self).at() == old(self).at() + 1
            } else {
                result == Err::<bool, KrakenError>(KrakenError::Truncated { offset })
            },
    {
        let index: usize = self.bit / 8;
        if index >= self.bytes.len() {
            return Err(KrakenError::Truncated { offset });
        }
        let byte: u8 = if self.reverse_bytes {
            self.bytes[self.bytes.len() - 1 - index]
        } else {
            self.bytes[index]
        };
        let bit: bool = bit_at(byte, self.bit % 8);
        self.bit = self.bit + 1;
        Ok(bit)
    }

    /// Counts the bytes that were read from.
    pub fn consumed_bytes(&self) -> (result: usize)
        requires
            self.wf(),
        ensures
            result == bits::bytes_for(self.at()),
            8 * result <= self.bits().len(),
    {
        ceil_bytes(self.bit)
    }
}

/// Bits of which `other` are read from the far end: the number that the next
/// `count` bits spell, lowest first.
pub open spec fn tans_read(bits: Seq<bool>, at: nat, other: nat, count: nat) -> Option<(nat, nat)> {
    if at + other + count <= bits.len() {
        Some((bits::lsb_value(bits.subrange(at as int, (at + count) as int)), at + count))
    } else {
        None
    }
}

/// Reads the low ends of bytes from the front and, byte by byte, from the back.
pub struct TansPairedBits<'a> {
    bytes: &'a [u8],
    front: usize,
    back: usize,
}

impl<'a> TansPairedBits<'a> {
    /// The bits as the front sees them.
    pub closed spec fn front(&self) -> Seq<bool> {
        bits::lsb_bits(self.bytes@)
    }

    /// The bits as the back sees them.
    pub closed spec fn back(&self) -> Seq<bool> {
        bits::lsb_bits(self.bytes@.reverse())
    }

    /// How many bits were read from the front.
    pub closed spec fn front_at(&self) -> nat {
        self.front as nat
    }

    /// How many bits were read from the back.
    pub closed spec fn back_at(&self) -> nat {
        self.back as nat
    }

    pub closed spec fn wf(&self) -> bool {
        self.front + self.back <= 8 * self.bytes@.len() <= usize::MAX
    }

    /// The same bytes are read.
    pub open spec fn same_source(&self, other: &Self) -> bool {
        self.front() == other.front() && self.back() == other.back()
    }

    /// Reading stays within the input.
    pub proof fn lemma_bound(&self)
        requires
            self.wf(),
        ensures
            self.front_at() + self.back_at() <= self.front().len() <= usize::MAX,
            self.front().len() == self.back().len(),
    {
    }

    pub fn new(bytes: &'a [u8]) -> (result: Self)
        requires
            8 * bytes@.len() <= usize::MAX,
        ensures
            result.wf(),
            result.front() == bits::lsb_bits(bytes@),
            result.back() == bits::lsb_bits(bytes@.reverse()),
            result.front_at() == 0,
            result.back_at() == 0,
    {
        TansPairedBits { bytes, front: 0, back: 0 }
    }

    /// Reads a number of `count` bits from the front.
    pub fn read_front(&mut self, count: usize) -> (result: Option<usize>)
        requires
            old(self).wf(),
            count <= 16,
        ensures
            final(self).wf(),
            final(self).same_source(old(self)),
            final(self).back_at() == old(self).back_at(),
            match tans_read(
                old(self).front(),
                old(self).front_at(),
                old(self).back_at(),
                count as nat,
            ) {
                None => result is None,
                Some((value, next)) => result == Some(value as usize) && value < pow2(count as nat)
                    && value <= 0xffff && final(self).front_at() == next,
            },
    {
        let ghost bits = self.front();
        let ghost at = self.front_at();
        if self.bytes.len() * 8 - self.front - self.back < count {
            return None;
        }
        let mut value: usize = 0;
        let mut size: usize = 1;
        let mut done: usize = 0;
        proof {
            lemma2_to64();
            assert(bits.subrange(at as int, at as int) =~= Seq::<bool>::empty());
        }
        while done < count
            invariant
                done <= count <= 16,
                self.wf(),
                self.same_source(old(self)),
                self.back_at() == old(self).back_at(),
                bits == old(self).front(),
                at == old(self).front_at(),
                self.front_at() == at + done,
                at + self.back_at() + count <= bits.len(),
                value == bits::lsb_value(bits.subrange(at as int, (at + done) as int)),
                size == pow2(done as nat),
                value < size <= 0x10000,
            decreases count - done,
        {
            let bit: bool = bit_at(self.bytes[self.front / 8], self.front % 8);
            proof {
                lemma_lsb_value_push(bits, at as int, (at + done) as int);
                lemma_pow2_unfold((done + 1) as nat);
                lemma2_to64();
                if done + 1 < 16 {
                    lemma_pow2_strictly_increases((done + 1) as nat, 16);
                }
            }
            if bit {
                value = value + size;
            }
            size = size * 2;
            self.front = self.front + 1;
            done = done + 1;
        }
        Some(value)
    }

    /// Reads a number of `count` bits from the back.
    pub fn read_back(&mut self, count: usize) -> (result: Option<usize>)
        requires
            old(self).wf(),
            count <= 16,
        ensures
            final(self).wf(),
            final(self).same_source(old(self)),
            final(self).front_at() == old(self).front_at(),
            match tans_read(
                old(self).back(),
                old(self).back_at(),
                old(self).front_at(),
                count as nat,
            ) {
                None => result is None,
                Some((value, next)) => result == Some(value as usize) && value < pow2(count as nat)
                    && value <= 0xffff && final(self).back_at() == next,
            },
    {
        let ghost bits = self.back();
        let ghost at = self.back_at();
        if self.bytes.len() * 8 - self.front - self.back < count {
            return None;
        }
        let mut value: usize = 0;
        let mut size: usize = 1;
        let mut done: usize = 0;
        proof {
            lemma2_to64();
            assert(bits.subrange(at as int, at as int) =~= Seq::<bool>::empty());
        }
        while done < count
            invariant
                done <= count <= 16,
                self.wf(),
                self.same_source(old(self)),
                self.front_at() == old(self).front_at(),
                bits == old(self).back(),
                at == old(self).back_at(),
                self.back_at() == at + done,
                at + self.front_at() + count <= bits.len(),
                value == bits::lsb_value(bits.subrange(at as int, (at + done) as int)),
                size == pow2(done as nat),
                value < size <= 0x10000,
            decreases count - done,
        {
            let byte: usize = self.bytes.len() - 1 - self.back / 8;
            let bit: bool = bit_at(self.bytes[byte], self.back % 8);
            proof {
                lemma_lsb_value_push(bits, at as int, (at + done) as int);
                lemma_pow2_unfold((done + 1) as nat);
                lemma2_to64();
                if done + 1 < 16 {
                    lemma_pow2_strictly_increases((done + 1) as nat, 16);
                }
            }
            if bit {
                value = value + size;
            }
            size = size * 2;
            self.back = self.back + 1;
            done = done + 1;
        }
        Some(value)
    }

    /// Every byte was read from exactly one end.
    pub fn consumed_exactly(&self) -> (result: bool)
        requires
            self.wf(),
        ensures
            result == (8 * (bits::bytes_for(self.front_at()) + bits::bytes_for(self.back_at()))
                == self.front().len()),
    {
        ceil_bytes(self.front) + ceil_bytes(self.back) == self.bytes.len()
    }
}

/// Computes a power of two.
pub fn power_of_two(exponent: usize) -> (result: usize)
    requires
        exponent < 32,
    ensures
        result == pow2(exponent as nat),
        result > 0,
{
    proof {
        lemma2_to64();
        lemma_pow2_pos(exponent as nat);
    }
    let mut result: usize = 1;
    let mut done: usize = 0;
    while done < exponent
        invariant
            done <= exponent < 32,
            result == pow2(done as nat),
            result > 0,
        decreases exponent - done,
    {
        proof {
            lemma2_to64();
            lemma_pow2_unfold((done + 1) as nat);
            if done + 1 < 32 {
                lemma_pow2_strictly_increases((done + 1) as nat, 32);
            }
        }
        result = result * 2;
        done = done + 1;
    }
    result
}

} // verus!
