//! Little-endian numbers in byte strings.

use vstd::prelude::*;

verus! {

/// The number that bytes spell, low byte first.
pub open spec fn le_value(bytes: Seq<u8>) -> nat
    decreases bytes.len(),
{
    if bytes.len() == 0 {
        0
    } else {
        bytes[0] as nat + 256 * le_value(bytes.drop_first())
    }
}

/// The low `count` bytes of a number, low byte first.
pub open spec fn le_bytes(value: nat, count: nat) -> Seq<u8>
    decreases count,
{
    if count == 0 {
        seq![]
    } else {
        seq![(value % 256) as u8] + le_bytes(value / 256, (count - 1) as nat)
    }
}

/// The number of `count` bytes at `at`, if they are all there.
pub open spec fn number_at(bytes: Seq<u8>, at: nat, count: nat) -> Option<nat> {
    if at + count <= bytes.len() {
        Some(le_value(bytes.subrange(at as int, (at + count) as int)))
    } else {
        None
    }
}

/// The signed number with these 64 bits.
pub open spec fn signed64(value: nat) -> int {
    if value < 0x8000_0000_0000_0000 {
        value as int
    } else {
        value - 0x1_0000_0000_0000_0000
    }
}

/// The 64 bits of a signed number.
pub open spec fn unsigned64(value: int) -> nat {
    if value >= 0 {
        value as nat
    } else {
        (value + 0x1_0000_0000_0000_0000) as nat
    }
}

/// `256^count`.
pub open spec fn byte_range(count: nat) -> nat
    decreases count,
{
    if count == 0 {
        1
    } else {
        256 * byte_range((count - 1) as nat)
    }
}

/// The ranges of the usual sizes.
pub proof fn lemma_byte_ranges()
    ensures
        byte_range(1) == 0x100,
        byte_range(2) == 0x1_0000,
        byte_range(4) == 0x1_0000_0000,
        byte_range(8) == 0x1_0000_0000_0000_0000,
{
    reveal_with_fuel(byte_range, 9);
}

/// Reading what was written gives the number back.
pub proof fn law_read_written(value: nat, count: nat)
    requires
        value < byte_range(count),
    ensures
        le_bytes(value, count).len() == count,
        le_value(le_bytes(value, count)) == value,
    decreases count,
{
    if count > 0 {
        law_read_written(value / 256, (count - 1) as nat);
        assert(le_bytes(value, count).drop_first() =~= le_bytes(value / 256, (count - 1) as nat));
    }
}

/// Writing what was read gives the bytes back.
pub proof fn law_write_read(bytes: Seq<u8>)
    ensures
        le_value(bytes) < byte_range(bytes.len()),
        le_bytes(le_value(bytes), bytes.len()) == bytes,
    decreases bytes.len(),
{
    if bytes.len() > 0 {
        law_write_read(bytes.drop_first());
        let rest = le_value(bytes.drop_first());
        assert(le_value(bytes) / 256 == rest);
        assert(le_bytes(le_value(bytes), bytes.len()) =~= bytes);
    }
}

pub proof fn lemma_le_bytes_len(value: nat, count: nat)
    ensures
        le_bytes(value, count).len() == count,
    decreases count,
{
    if count > 0 {
        lemma_le_bytes_len(value / 256, (count - 1) as nat);
    }
}

/// A number that stands in a byte string is read back.
pub proof fn lemma_number_stands(bytes: Seq<u8>, at: nat, value: nat, count: nat)
    requires
        value < byte_range(count),
        crate::sequence::stands(bytes, at, le_bytes(value, count)),
    ensures
        number_at(bytes, at, count) == Some(value),
{
    law_read_written(value, count);
}

proof fn lemma_le_value_parts(bytes: Seq<u8>, split: int)
    requires
        0 <= split <= bytes.len(),
    ensures
        le_value(bytes) == le_value(bytes.subrange(0, split)) + byte_range(split as nat) * le_value(
            bytes.subrange(split, bytes.len() as int),
        ),
    decreases split,
{
    if split == 0 {
        assert(bytes.subrange(0, bytes.len() as int) =~= bytes);
        assert(byte_range(0) == 1);
        assert(bytes.subrange(0, 0) =~= Seq::<u8>::empty());
        let whole = le_value(bytes);
        assert(1 * whole == whole) by (nonlinear_arith);
    } else {
        let rest = bytes.drop_first();
        lemma_le_value_parts(rest, split - 1);
        assert(bytes.subrange(0, split).drop_first() =~= rest.subrange(0, split - 1));
        assert(bytes.subrange(split, bytes.len() as int) =~= rest.subrange(
            split - 1,
            rest.len() as int,
        ));
        let a = byte_range((split - 1) as nat);
        let b = le_value(bytes.subrange(split, bytes.len() as int));
        assert(256 * (a * b) == (256 * a) * b) by (nonlinear_arith);
    }
}

/// Reads a 16-bit number.
pub fn read_u16_le(bytes: &[u8], at: usize) -> (result: Option<u16>)
    ensures
        match number_at(bytes@, at as nat, 2) {
            None => result is None,
            Some(value) => result matches Some(r) && r == value,
        },
{
    if at > bytes.len() || bytes.len() - at < 2 {
        return None;
    }
    let ghost part = bytes@.subrange(at as int, at + 2);
    proof {
        reveal_with_fuel(le_value, 3);
        assert(part.drop_first().drop_first().len() == 0);
        assert(part[0] == bytes@[at as int]);
        assert(part.drop_first()[0] == bytes@[at + 1]);
    }
    Some(bytes[at] as u16 + 256 * bytes[at + 1] as u16)
}

/// Reads a 32-bit number.
pub fn read_u32_le(bytes: &[u8], at: usize) -> (result: Option<u32>)
    ensures
        match number_at(bytes@, at as nat, 4) {
            None => result is None,
            Some(value) => result matches Some(r) && r == value,
        },
{
    if at > bytes.len() || bytes.len() - at < 4 {
        return None;
    }
    let low: u16 = match read_u16_le(bytes, at) {
        Some(value) => value,
        None => return None,
    };
    let high: u16 = match read_u16_le(bytes, at + 2) {
        Some(value) => value,
        None => return None,
    };
    proof {
        let part = bytes@.subrange(at as int, at + 4);
        lemma_le_value_parts(part, 2);
        lemma_byte_ranges();
        assert(part.subrange(0, 2) =~= bytes@.subrange(at as int, at + 2));
        assert(part.subrange(2, 4) =~= bytes@.subrange(at + 2, at + 4));
        assert(byte_range(2) * high == 0x1_0000 * high) by (nonlinear_arith)
            requires
                byte_range(2) == 0x1_0000,
        ;
    }
    let upper: u32 = high as u32;
    Some(low as u32 + upper * 0x1_0000)
}

/// Reads a 64-bit number.
pub fn read_u64_le(bytes: &[u8], at: usize) -> (result: Option<u64>)
    ensures
        match number_at(bytes@, at as nat, 8) {
            None => result is None,
            Some(value) => result matches Some(r) && r == value,
        },
{
    if at > bytes.len() || bytes.len() - at < 8 {
        return None;
    }
    let low: u32 = match read_u32_le(bytes, at) {
        Some(value) => value,
        None => return None,
    };
    let high: u32 = match read_u32_le(bytes, at + 4) {
        Some(value) => value,
        None => return None,
    };
    proof {
        let part = bytes@.subrange(at as int, at + 8);
        lemma_le_value_parts(part, 4);
        lemma_byte_ranges();
        assert(part.subrange(0, 4) =~= bytes@.subrange(at as int, at + 4));
        assert(part.subrange(4, 8) =~= bytes@.subrange(at + 4, at + 8));
        assert(byte_range(4) * high == 0x1_0000_0000 * high) by (nonlinear_arith)
            requires
                byte_range(4) == 0x1_0000_0000,
        ;
    }
    Some(low as u64 + 0x1_0000_0000 * high as u64)
}

/// Reads a signed 64-bit number.
pub fn read_i64_le(bytes: &[u8], at: usize) -> (result: Option<i64>)
    ensures
        match number_at(bytes@, at as nat, 8) {
            None => result is None,
            Some(value) => result matches Some(r) && r == signed64(value),
        },
{
    match read_u64_le(bytes, at) {
        None => None,
        Some(value) => {
            if value < 0x8000_0000_0000_0000 {
                Some(value as i64)
            } else {
                Some(-1 - (0xffff_ffff_ffff_ffff - value) as i64)
            }
        },
    }
}

/// Appends a 16-bit number.
pub fn write_u16(output: &mut Vec<u8>, value: u16)
    ensures
        final(output)@ == old(output)@ + le_bytes(value as nat, 2),
{
    output.push((value % 256) as u8);
    output.push((value / 256) as u8);
    proof {
        reveal_with_fuel(le_bytes, 3);
        assert(output@ =~= old(output)@ + le_bytes(value as nat, 2));
    }
}

/// Appends a 32-bit number.
pub fn write_u32(output: &mut Vec<u8>, value: u32)
    ensures
        final(output)@ == old(output)@ + le_bytes(value as nat, 4),
{
    output.push((value % 256) as u8);
    output.push(((value / 256) % 256) as u8);
    output.push(((value / 0x1_0000) % 256) as u8);
    output.push((value / 0x100_0000) as u8);
    proof {
        reveal_with_fuel(le_bytes, 5);
        assert(((value as nat / 256) / 256) == value as nat / 0x1_0000);
        assert((((value as nat / 256) / 256) / 256) == value as nat / 0x100_0000);
        assert(output@ =~= old(output)@ + le_bytes(value as nat, 4));
    }
}

/// Appends a 64-bit number.
pub fn write_u64(output: &mut Vec<u8>, value: u64)
    ensures
        final(output)@ == old(output)@ + le_bytes(value as nat, 8),
{
    let ghost start = output@;
    let mut rest: u64 = value;
    let mut i: usize = 0;
    while i < 8
        invariant
            i <= 8,
            start + le_bytes(value as nat, 8) == output@ + le_bytes(rest as nat, (8 - i) as nat),
        decreases 8 - i,
    {
        let ghost before = output@;
        output.push((rest % 256) as u8);
        proof {
            assert(before + le_bytes(rest as nat, (8 - i) as nat) =~= output@ + le_bytes(
                (rest / 256) as nat,
                (8 - i - 1) as nat,
            ));
        }
        rest = rest / 256;
        i = i + 1;
    }
    assert(output@ + le_bytes(rest as nat, 0) =~= output@);
}

/// Appends a signed 64-bit number.
pub fn write_i64(output: &mut Vec<u8>, value: i64)
    ensures
        final(output)@ == old(output)@ + le_bytes(unsigned64(value as int), 8),
{
    let bits: u64 = if value >= 0 {
        value as u64
    } else {
        0xffff_ffff_ffff_ffff - (-1 - value) as u64
    };
    write_u64(output, bits);
}

} // verus!
