//! Canonical Huffman codes: their tables and what they decode.

use super::bits;
use super::cursor;
use super::readers;
use super::readers::{power_of_two, HuffBits};
use super::KrakenError;
use crate::sequence;
use crate::sequence::{part, sort_keys};
use vstd::arithmetic::power2::{lemma2_to64, lemma_pow2_adds, lemma_pow2_pos, lemma_pow2_strictly_increases, lemma_pow2_unfold, pow2};
use vstd::prelude::*;

verus! {

// ---------------------------------------------------------------------------
// Canonical tables
// ---------------------------------------------------------------------------

/// The low `count` bits of `value` in reverse.
pub open spec fn reversed(value: nat, count: nat) -> nat {
    bits::msb_value(bits::code_bits(value, count))
}

/// Symbols by their code lengths, as keys that sort by length and then by symbol.
pub open spec fn length_keys(symbols: Seq<u8>, lengths: Seq<u8>) -> Seq<u64> {
    Seq::new(symbols.len(), |i: int| (lengths[i] * 256 + symbols[i]) as u64)
}

/// Of the `2^11` slots, those that codes of these lengths take.
pub open spec fn kraft_slots(keys: Seq<u64>) -> nat
    decreases keys.len(),
{
    if keys.len() == 0 {
        0
    } else {
        kraft_slots(keys.drop_last()) + pow2((11 - keys.last() / 256) as nat)
    }
}

/// Every code length is between 1 and 11.
pub open spec fn lengths_in_range(lengths: Seq<u8>) -> bool {
    forall|i: int| 0 <= i < lengths.len() ==> 1 <= #[trigger] lengths[i] <= 11
}

/// Gives the keys after the first `entries.len()` their codes in order: each
/// the least of its length that is above all codes before it.
pub open spec fn canonical_entries(
    keys: Seq<u64>,
    entries: Seq<(u16, u8, u8)>,
    code: nat,
    previous: nat,
) -> Seq<(u16, u8, u8)>
    decreases keys.len() - entries.len(),
{
    if entries.len() >= keys.len() {
        entries
    } else {
        let key = keys[entries.len() as int];
        let length = (key / 256) as nat;
        let code = code * pow2((length - previous) as nat);
        let entry = (reversed(code, length) as u16, length as u8, (key % 256) as u8);
        canonical_entries(keys, entries.push(entry), code + 1, length)
    }
}

/// The table of codes, their lengths and symbols: there is one if the lengths
/// are those of a complete code.
pub open spec fn canonical_table(symbols: Seq<u8>, lengths: Seq<u8>) -> Option<
    Seq<(u16, u8, u8)>,
> {
    let keys = sequence::sorted(length_keys(symbols, lengths));
    if symbols.len() != lengths.len() || symbols.len() == 0 || !lengths_in_range(lengths)
        || kraft_slots(keys) != pow2(11) {
        None
    } else {
        Some(canonical_entries(keys, seq![], 0, 0))
    }
}

/// The codes of a canonical Huffman table.
pub struct OldHuffmanTable {
    /// Code (lowest bit first in the stream), code length and symbol.
    pub entries: Vec<(u16, u8, u8)>,
}

/// Reverses the low `bit_count` bits of a number.
pub fn reverse_low_bits(value: u16, bit_count: u8) -> (result: u16)
    requires
        bit_count <= 16,
    ensures
        result == reversed(value as nat, bit_count as nat),
        result < pow2(bit_count as nat),
{
    let mut rest: u16 = value;
    let mut result: u32 = 0;
    let mut done: u8 = 0;
    proof {
        lemma2_to64();
        assert((value as nat) / 1 == value);
    }
    while done < bit_count
        invariant
            done <= bit_count <= 16,
            rest == (value as nat) / pow2(done as nat),
            result == reversed(value as nat, done as nat),
            result < pow2(done as nat) <= 0x10000,
        decreases bit_count - done,
    {
        proof {
            bits::lemma_code_bits_len(value as nat, done as nat);
            assert(bits::code_bits(value as nat, (done + 1) as nat).drop_last()
                =~= bits::code_bits(value as nat, done as nat));
            lemma_pow2_unfold((done + 1) as nat);
            lemma_pow2_pos(done as nat);
            lemma2_to64();
            if done + 1 < 16 {
                lemma_pow2_strictly_increases((done + 1) as nat, 16);
            }
            vstd::arithmetic::div_mod::lemma_div_denominator(
                value as int,
                pow2(done as nat) as int,
                2,
            );
            assert(pow2(done as nat) * 2 == 2 * pow2(done as nat));
        }
        result = result * 2 + (rest % 2) as u32;
        rest = rest / 2;
        done = done + 1;
    }
    result as u16
}

proof fn lemma_kraft_step(keys: Seq<u64>, i: int)
    requires
        0 <= i < keys.len(),
    ensures
        kraft_slots(keys.subrange(0, i + 1)) == kraft_slots(keys.subrange(0, i)) + pow2(
            (11 - keys[i] / 256) as nat,
        ),
{
    assert(keys.subrange(0, i + 1).drop_last() =~= keys.subrange(0, i));
}

pub proof fn lemma_kraft_monotone(keys: Seq<u64>, i: int, j: int)
    requires
        0 <= i <= j <= keys.len(),
    ensures
        kraft_slots(keys.subrange(0, i)) <= kraft_slots(keys.subrange(0, j)),
        i < j ==> kraft_slots(keys.subrange(0, i)) < kraft_slots(keys.subrange(0, j)),
    decreases j - i,
{
    if i < j {
        lemma_kraft_monotone(keys, i, j - 1);
        lemma_kraft_step(keys, j - 1);
        lemma_pow2_pos((11 - keys[j - 1] / 256) as nat);
    }
}

pub proof fn lemma_keys_in_range(symbols: Seq<u8>, lengths: Seq<u8>)
    requires
        symbols.len() == lengths.len(),
        lengths_in_range(lengths),
    ensures
        sequence::sorted(length_keys(symbols, lengths)).len() == symbols.len(),
        forall|i: int|
            0 <= i < symbols.len() ==> 256 <= #[trigger] sequence::sorted(
                length_keys(symbols, lengths),
            )[i] < 12 * 256,
{
    let keys = length_keys(symbols, lengths);
    sequence::lemma_sorted(keys);
    assert forall|i: int| 0 <= i < symbols.len() implies 256 <= #[trigger] sequence::sorted(
        keys,
    )[i] < 12 * 256 by {
        assert(sequence::sorted(keys).contains(sequence::sorted(keys)[i]));
        assert(keys.contains(sequence::sorted(keys)[i]));
        let j = choose|j: int| 0 <= j < keys.len() && keys[j] == sequence::sorted(keys)[i];
        assert(1 <= lengths[j] <= 11);
    }
}

/// Builds the table of a canonical code from its symbols and their code lengths.
pub fn canonical_huffman_table(symbols: &[u8], lengths: &[u8]) -> (result: Option<OldHuffmanTable>)
    ensures
        match canonical_table(symbols@, lengths@) {
            None => result is None,
            Some(entries) => result matches Some(table) && table.entries@ == entries,
        },
{
    if symbols.len() != lengths.len() || symbols.len() == 0 {
        return None;
    }
    let mut keys: Vec<u64> = Vec::new();
    let mut i: usize = 0;
    while i < symbols.len()
        invariant
            i <= symbols@.len() == lengths@.len(),
            keys@.len() == i,
            forall|k: int| 0 <= k < i ==> keys@[k] == length_keys(symbols@, lengths@)[k],
            forall|k: int| 0 <= k < i ==> 1 <= #[trigger] lengths@[k] <= 11,
        decreases symbols@.len() - i,
    {
        if lengths[i] < 1 || lengths[i] > 11 {
            return None;
        }
        keys.push(lengths[i] as u64 * 256 + symbols[i] as u64);
        i = i + 1;
    }
    assert(keys@ =~= length_keys(symbols@, lengths@));
    let keys: Vec<u64> = sort_keys(&keys);
    proof {
        lemma_keys_in_range(symbols@, lengths@);
        lemma2_to64();
        assert(keys@.subrange(0, 0) =~= Seq::<u64>::empty());
        assert(keys@.subrange(0, keys@.len() as int) =~= keys@);
    }
    let mut slots: u32 = 0;
    let mut i: usize = 0;
    while i < keys.len()
        invariant
            i <= keys@.len(),
            forall|k: int| 0 <= k < keys@.len() ==> 256 <= #[trigger] keys@[k] < 12 * 256,
            slots == kraft_slots(keys@.subrange(0, i as int)),
            slots <= 2048,
            pow2(11) == 2048,
            keys@ == sequence::sorted(length_keys(symbols@, lengths@)),
            keys@.subrange(0, keys@.len() as int) == keys@,
        decreases keys@.len() - i,
    {
        let length: u64 = keys[i] / 256;
        proof {
            lemma_kraft_step(keys@, i as int);
            lemma_kraft_monotone(keys@, i + 1, keys@.len() as int);
            lemma2_to64();
        }
        slots = slots + power_of_two(11 - length as usize) as u32;
        if slots > 2048 {
            return None;
        }
        i = i + 1;
    }
    if slots != 2048 {
        return None;
    }
    let mut code: u32 = 0;
    let mut previous: u64 = 0;
    let mut entries: Vec<(u16, u8, u8)> = Vec::new();
    let mut i: usize = 0;
    proof {
        assert(0 * pow2(11) == 0) by (nonlinear_arith);
        sequence::lemma_sorted(length_keys(symbols@, lengths@));
    }
    while i < keys.len()
        invariant
            i <= keys@.len(),
            entries@.len() == i,
            forall|k: int| 0 <= k < keys@.len() ==> 256 <= #[trigger] keys@[k] < 12 * 256,
            forall|j: int, k: int| 0 <= j <= k < keys@.len() ==> keys@[j] <= keys@[k],
            kraft_slots(keys@) == 2048,
            keys@.subrange(0, keys@.len() as int) == keys@,
            previous <= 11,
            i > 0 ==> previous == keys@[i - 1] / 256,
            i == 0 ==> previous == 0,
            code <= 2048,
            code * pow2((11 - previous) as nat) == kraft_slots(keys@.subrange(0, i as int)),
            pow2(11) == 2048,
            canonical_entries(keys@, entries@, code as nat, previous as nat) == canonical_entries(
                keys@,
                seq![],
                0,
                0,
            ),
        decreases keys@.len() - i,
    {
        let length: u64 = keys[i] / 256;
        let symbol: u8 = (keys[i] % 256) as u8;
        proof {
            if i > 0 {
                assert(keys@[i - 1] <= keys@[i as int]);
            }
        }
        let scale: u32 = power_of_two((length - previous) as usize) as u32;
        let ghost before = code as nat;
        proof {
            lemma2_to64();
            if length - previous < 11 {
                lemma_pow2_strictly_increases((length - previous) as nat, 11);
            }
            lemma_kraft_step(keys@, i as int);
            lemma_kraft_monotone(keys@, i as int, keys@.len() as int);
            lemma_kraft_monotone(keys@, i + 1, keys@.len() as int);
            lemma_code_step(
                code as nat,
                previous as nat,
                length as nat,
                kraft_slots(keys@.subrange(0, i as int)),
            );
        }
        assert(code * scale == before * pow2((length - previous) as nat));
        code = code * scale;
        let reversed_code: u16 = reverse_low_bits(code as u16, length as u8);
        entries.push((reversed_code, length as u8, symbol));
        code = code + 1;
        previous = length;
        i = i + 1;
    }
    Some(OldHuffmanTable { entries })
}

/// Where a code of one length stands among those of a greater length.
pub proof fn lemma_code_step(code: nat, previous: nat, length: nat, slots: nat)
    requires
        previous <= length <= 11,
        code * pow2((11 - previous) as nat) == slots,
        slots < 2048,
    ensures
        code * pow2((length - previous) as nat) * pow2((11 - length) as nat) == slots,
        code * pow2((length - previous) as nat) < pow2(length),
        pow2(length) <= 2048,
        (code * pow2((length - previous) as nat) + 1) * pow2((11 - length) as nat) == slots + pow2(
            (11 - length) as nat,
        ),
{
    let a = pow2((length - previous) as nat);
    let b = pow2((11 - length) as nat);
    lemma_pow2_adds((length - previous) as nat, (11 - length) as nat);
    lemma_pow2_adds(length, (11 - length) as nat);
    lemma_pow2_pos((11 - length) as nat);
    lemma2_to64();
    if length < 11 {
        lemma_pow2_strictly_increases(length, 11);
    }
    assert(code * a * b == code * (a * b)) by (nonlinear_arith);
    assert((code * a + 1) * b == code * a * b + b) by (nonlinear_arith);
    let c = code * a;
    let p = pow2(length);
    assert(c < p) by (nonlinear_arith)
        requires
            c * b < p * b,
            b > 0,
    ;
}

// ---------------------------------------------------------------------------
// Decoding symbols
// ---------------------------------------------------------------------------

/// The symbol of the first entry at or after `from` with this code.
pub open spec fn find_symbol(
    entries: Seq<(u16, u8, u8)>,
    length: nat,
    code: nat,
    from: nat,
) -> Option<u8>
    decreases entries.len() - from,
{
    if from >= entries.len() {
        None
    } else {
        let entry = entries[from as int];
        if entry.1 == length && entry.0 == code {
            Some(entry.2)
        } else {
            find_symbol(entries, length, code, from + 1)
        }
    }
}

/// The symbol whose code stands at `at`, looked for among codes longer than `length`.
pub open spec fn huffman_symbol(
    entries: Seq<(u16, u8, u8)>,
    bits: Seq<bool>,
    at: nat,
    length: nat,
    offset: usize,
) -> Result<(u8, nat), KrakenError>
    decreases 11 - length,
{
    if length >= 11 {
        Err(KrakenError::InvalidArray { offset })
    } else if at + length >= bits.len() {
        Err(KrakenError::Truncated { offset })
    } else {
        let code = bits::lsb_value(bits.subrange(at as int, (at + length + 1) as int));
        match find_symbol(entries, length + 1, code, 0) {
            Some(symbol) => Ok((symbol, at + length + 1)),
            None => huffman_symbol(entries, bits, at, length + 1, offset),
        }
    }
}

impl OldHuffmanTable {
    /// Decodes one symbol.
    pub fn decode(&self, bits: &mut HuffBits<'_>, offset: usize) -> (result: Result<
        u8,
        KrakenError,
    >)
        requires
            old(bits).wf(),
        ensures
            final(bits).wf(),
            final(bits).bits() == old(bits).bits(),
            match huffman_symbol(self.entries@, old(bits).bits(), old(bits).at(), 0, offset) {
                Ok((symbol, next)) => result == Ok::<u8, KrakenError>(symbol) && final(bits).at()
                    == next,
                Err(error) => result == Err::<u8, KrakenError>(error),
            },
    {
        let ghost start = bits.at();
        let ghost all = bits.bits();
        proof {
            bits.lemma_bound();
        }
        let mut code: u32 = 0;
        let mut size: u32 = 1;
        let mut length: u8 = 0;
        proof {
            lemma2_to64();
            assert(all.subrange(start as int, start as int) =~= Seq::<bool>::empty());
        }
        while length < 11
            invariant
                length <= 11,
                bits.wf(),
                bits.bits() == all,
                all == old(bits).bits(),
                start == old(bits).at(),
                bits.at() == start + length,
                start + length <= all.len(),
                size == pow2(length as nat),
                code == bits::lsb_value(all.subrange(start as int, (start + length) as int)),
                code < size <= 2048,
                huffman_symbol(self.entries@, all, start, length as nat, offset) == huffman_symbol(
                    self.entries@,
                    all,
                    start,
                    0,
                    offset,
                ),
            decreases 11 - length,
        {
            let bit: bool = bits.read(offset)?;
            proof {
                readers::lemma_lsb_value_push(all, start as int, (start + length) as int);
                lemma_pow2_unfold((length + 1) as nat);
                lemma2_to64();
                if length + 1 < 11 {
                    lemma_pow2_strictly_increases((length + 1) as nat, 11);
                }
            }
            if bit {
                code = code + size;
            }
            size = size * 2;
            length = length + 1;
            let mut i: usize = 0;
            while i < self.entries.len()
                invariant
                    i <= self.entries@.len(),
                    1 <= length <= 11,
                    find_symbol(self.entries@, length as nat, code as nat, i as nat) == find_symbol(
                        self.entries@,
                        length as nat,
                        code as nat,
                        0,
                    ),
                    huffman_symbol(self.entries@, all, start, (length - 1) as nat, offset)
                        == huffman_symbol(self.entries@, all, start, 0, offset),
                    start + length <= all.len(),
                    code == bits::lsb_value(all.subrange(start as int, (start + length) as int)),
                    bits.wf(),
                    bits.bits() == all,
                all == old(bits).bits(),
                    start == old(bits).at(),
                    bits.at() == start + length,
                decreases self.entries@.len() - i,
            {
                let entry: (u16, u8, u8) = self.entries[i];
                if entry.1 == length && entry.0 as u32 == code {
                    return Ok(entry.2);
                }
                i = i + 1;
            }
        }
        Err(KrakenError::InvalidArray { offset })
    }
}

/// Three streams that take turns: the symbols after `out`, and where each
/// stream then stands.
pub open spec fn huffman_symbols(
    entries: Seq<(u16, u8, u8)>,
    streams: (Seq<bool>, Seq<bool>, Seq<bool>),
    out: Seq<u8>,
    at: (nat, nat, nat),
    size: nat,
    offset: usize,
) -> Result<(Seq<u8>, (nat, nat, nat)), KrakenError>
    decreases size - out.len(),
{
    if out.len() >= size {
        Ok((out, at))
    } else if out.len() % 3 == 0 {
        match huffman_symbol(entries, streams.0, at.0, 0, offset) {
            Err(error) => Err(error),
            Ok((symbol, next)) => huffman_symbols(
                entries,
                streams,
                out.push(symbol),
                (next, at.1, at.2),
                size,
                offset,
            ),
        }
    } else if out.len() % 3 == 1 {
        match huffman_symbol(entries, streams.1, at.1, 0, offset) {
            Err(error) => Err(error),
            Ok((symbol, next)) => huffman_symbols(
                entries,
                streams,
                out.push(symbol),
                (at.0, next, at.2),
                size,
                offset,
            ),
        }
    } else {
        match huffman_symbol(entries, streams.2, at.2, 0, offset) {
            Err(error) => Err(error),
            Ok((symbol, next)) => huffman_symbols(
                entries,
                streams,
                out.push(symbol),
                (at.0, at.1, next),
                size,
                offset,
            ),
        }
    }
}

/// A group: the length of the first stream, that stream, and two streams that
/// share the rest, one of them read from the end.
pub open spec fn huffman_group(
    entries: Seq<(u16, u8, u8)>,
    payload: Seq<u8>,
    size: nat,
    offset: usize,
) -> Result<Seq<u8>, KrakenError> {
    if payload.len() < 2 {
        Err(KrakenError::Truncated { offset })
    } else {
        let first_len = cursor::le16(payload, 0);
        let streams = payload.subrange(2, payload.len() as int);
        if first_len > streams.len() {
            Err(KrakenError::InvalidArray { offset })
        } else {
            let first = streams.subrange(0, first_len as int);
            let opposing = streams.subrange(first_len as int, streams.len() as int);
            match huffman_symbols(
                entries,
                (
                    bits::lsb_bits(first),
                    bits::lsb_bits(opposing.reverse()),
                    bits::lsb_bits(opposing),
                ),
                seq![],
                (0, 0, 0),
                size,
                offset,
            ) {
                Err(error) => Err(error),
                Ok((out, at)) => if bits::bytes_for(at.0) != first.len() || bits::bytes_for(at.1)
                    + bits::bytes_for(at.2) != opposing.len() {
                    Err(KrakenError::InvalidArray { offset })
                } else {
                    Ok(out)
                },
            }
        }
    }
}

/// Decodes a group of three streams.
pub fn decode_huffman_group(
    table: &OldHuffmanTable,
    payload: &[u8],
    decoded_size: usize,
    offset: usize,
) -> (result: Result<Vec<u8>, KrakenError>)
    requires
        8 * payload@.len() <= usize::MAX,
    ensures
        match huffman_group(table.entries@, payload@, decoded_size as nat, offset) {
            Ok(out) => result matches Ok(value) && value@ == out,
            Err(error) => result == Err::<Vec<u8>, KrakenError>(error),
        },
{
    if payload.len() < 2 {
        return Err(KrakenError::Truncated { offset });
    }
    let first_len: usize = payload[0] as usize + payload[1] as usize * 256;
    let streams: &[u8] = part(payload, 2, payload.len());
    if first_len > streams.len() {
        return Err(KrakenError::InvalidArray { offset });
    }
    let first: &[u8] = part(streams, 0, first_len);
    let opposing: &[u8] = part(streams, first_len, streams.len());
    let mut output: Vec<u8> = Vec::new();
    let mut first_bits = HuffBits::new(first, false);
    let mut second_bits = HuffBits::new(opposing, false);
    let mut backward_bits = HuffBits::new(opposing, true);
    let ghost bit_streams = (first_bits.bits(), backward_bits.bits(), second_bits.bits());
    while output.len() < decoded_size
        invariant
            output@.len() <= decoded_size,
            first_bits.wf(),
            second_bits.wf(),
            backward_bits.wf(),
            bit_streams == (first_bits.bits(), backward_bits.bits(), second_bits.bits()),
            bit_streams == (
                bits::lsb_bits(first@),
                bits::lsb_bits(opposing@.reverse()),
                bits::lsb_bits(opposing@),
            ),
            huffman_group(table.entries@, payload@, decoded_size as nat, offset) == (
            match huffman_symbols(
                table.entries@,
                bit_streams,
                output@,
                (first_bits.at(), backward_bits.at(), second_bits.at()),
                decoded_size as nat,
                offset,
            ) {
                Err(error) => Err(error),
                Ok((out, at)) => if bits::bytes_for(at.0) != first@.len() || bits::bytes_for(at.1)
                    + bits::bytes_for(at.2) != opposing@.len() {
                    Err(KrakenError::InvalidArray { offset })
                } else {
                    Ok::<Seq<u8>, KrakenError>(out)
                },
            }),
        decreases decoded_size - output@.len(),
    {
        let turn: usize = output.len() % 3;
        let symbol: u8 = if turn == 0 {
            table.decode(&mut first_bits, offset)?
        } else if turn == 1 {
            table.decode(&mut backward_bits, offset)?
        } else {
            table.decode(&mut second_bits, offset)?
        };
        output.push(symbol);
    }
    let taken: usize = first_bits.consumed_bytes();
    if taken != first.len() {
        return Err(KrakenError::InvalidArray { offset });
    }
    let second: usize = second_bits.consumed_bytes();
    let backward: usize = backward_bits.consumed_bytes();
    if second > opposing.len() || backward != opposing.len() - second {
        return Err(KrakenError::InvalidArray { offset });
    }
    Ok(output)
}

} // verus!
