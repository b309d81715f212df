//! What is written as a Huffman-coded array is read back.

use super::arrays;
use super::bit_laws;
use super::bits;
use super::cursor;
use super::huffman;
use super::huffman_codes;
use super::huffman_encoder;
use super::readers;
use super::tables;
use super::writers;
use super::KrakenError;
use crate::sequence;
use vstd::arithmetic::power2::{lemma2_to64, pow2};
use vstd::prelude::*;

verus! {

// ---------------------------------------------------------------------------
// Envelopes
// ---------------------------------------------------------------------------

/// A 32-bit number is read back.
proof fn lemma_read_be32(bytes: Seq<u8>, at: nat, value: nat)
    requires
        value < 0x1_0000_0000,
        sequence::stands(bytes, at, huffman_encoder::be32_bytes(value)),
    ensures
        cursor::be32(bytes, at as int) == value,
{
    let header = huffman_encoder::be32_bytes(value);
    sequence::lemma_stands_index(bytes, at, header, 0);
    sequence::lemma_stands_index(bytes, at, header, 1);
    sequence::lemma_stands_index(bytes, at, header, 2);
    sequence::lemma_stands_index(bytes, at, header, 3);
}

/// The sizes in an envelope's header.
proof fn lemma_envelope_sizes(kind: nat, size: nat, compressed: nat)
    requires
        1 <= kind <= 5,
        compressed < size <= 0x3_ffff,
    ensures
        ({
            let value = ((size - 1) % 0x4000) * 0x4_0000 + compressed;
            let first = kind * 16 + (size - 1) / 0x4000;
            &&& value < 0x1_0000_0000
            &&& first < 128
            &&& first / 16 == kind
            &&& value % 0x4_0000 == compressed
            &&& (value / 0x4_0000 + first * 0x4000) % 0x4_0000 + 1 == size
        }),
{
    let low = (size - 1) % 0x4000;
    let high = (size - 1) / 0x4000;
    assert(high < 16);
    assert((low * 0x4_0000 + compressed) / 0x4_0000 == low);
    assert(low + (kind * 16 + high) * 0x4000 == (size - 1) + kind * 0x4_0000);
}

/// The header of an envelope is read back.
pub proof fn law_envelope(bytes: Seq<u8>, at: nat, base: nat, kind: nat, payload: Seq<u8>, size: nat)
    requires
        1 <= kind <= 5,
        huffman_encoder::envelope(kind, payload, size) is Some,
        sequence::stands(bytes, at, huffman_encoder::envelope(kind, payload, size)->0),
    ensures
        arrays::coded_header(bytes, at, base) == Ok::<(nat, nat, nat), KrakenError>(
            (payload.len(), size, at + 5),
        ),
        (bytes[at as int] / 16) % 8 == kind,
        bytes[at as int] < 0x80,
        bytes.subrange((at + 5) as int, (at + 5 + payload.len()) as int) == payload,
        huffman_encoder::envelope(kind, payload, size)->0.len() == 5 + payload.len(),
{
    let whole = huffman_encoder::envelope(kind, payload, size)->0;
    let value = (((size - 1) % 0x4000) * 0x4_0000 + payload.len()) as nat;
    let first = seq![(kind * 16 + (size - 1) / 0x4000) as u8];
    let header = huffman_encoder::be32_bytes(value);
    assert(whole == first + header + payload);
    sequence::lemma_stands_split(bytes, at, first + header, payload);
    sequence::lemma_stands_split(bytes, at, first, header);
    sequence::lemma_stands_index(bytes, at, first, 0);
    lemma_envelope_sizes(kind, size, payload.len());
    lemma_read_be32(bytes, at + 1, value);
}

// ---------------------------------------------------------------------------
// Headers
// ---------------------------------------------------------------------------

proof fn lemma_listed_prefix(symbols: Seq<u8>, lengths: Seq<u8>, width: nat, i: nat, n: nat)
    requires
        i <= n,
    ensures
        sequence::stands(
            huffman_encoder::listed_bits(symbols, lengths, width, n),
            0,
            huffman_encoder::listed_bits(symbols, lengths, width, i),
        ),
    decreases n - i,
{
    let part = huffman_encoder::listed_bits(symbols, lengths, width, i);
    if i == n {
        assert(part.subrange(0, part.len() as int) =~= part);
    } else {
        lemma_listed_prefix(symbols, lengths, width, i, (n - 1) as nat);
        let before = huffman_encoder::listed_bits(symbols, lengths, width, (n - 1) as nat);
        let after = huffman_encoder::listed_bits(symbols, lengths, width, n);
        assert(after.subrange(0, before.len() as int) =~= before);
        sequence::lemma_stands_within(after, 0, before, 0, part);
    }
}

/// The symbols and code lengths from `i` on are read back.
proof fn lemma_read_listed(
    bits: Seq<bool>,
    at: nat,
    symbols: Seq<u8>,
    lengths: Seq<u8>,
    width: nat,
    i: nat,
)
    requires
        symbols.len() == lengths.len(),
        i <= symbols.len(),
        width <= 4,
        sequence::stands(
            bits,
            at,
            huffman_encoder::listed_bits(symbols, lengths, width, symbols.len()),
        ),
        forall|k: int|
            0 <= k < lengths.len() ==> 1 <= #[trigger] lengths[k] <= 11 && lengths[k] - 1 < pow2(
                width,
            ),
    ensures
        tables::sparse_lengths(
            bits,
            at + huffman_encoder::listed_bits(symbols, lengths, width, i).len(),
            (symbols.len() - i) as nat,
            width,
            symbols.subrange(0, i as int),
            lengths.subrange(0, i as int),
        ) == Some(
            (
                symbols,
                lengths,
                at + huffman_encoder::listed_bits(symbols, lengths, width, symbols.len()).len(),
            ),
        ),
    decreases symbols.len() - i,
{
    if i == symbols.len() {
        assert(symbols.subrange(0, i as int) =~= symbols);
        assert(lengths.subrange(0, i as int) =~= lengths);
    } else {
        let whole = huffman_encoder::listed_bits(symbols, lengths, width, symbols.len());
        let before = huffman_encoder::listed_bits(symbols, lengths, width, i);
        let after = huffman_encoder::listed_bits(symbols, lengths, width, i + 1);
        let symbol = symbols[i as int] as nat;
        let length = (lengths[i as int] - 1) as nat;
        let pair = bits::value_bits(symbol, 8) + bits::value_bits(length, width);
        bits::lemma_value_bits_len(symbol, 8);
        bits::lemma_value_bits_len(length, width);
        lemma_listed_prefix(symbols, lengths, width, i + 1, symbols.len());
        sequence::lemma_stands_within(bits, at, whole, 0, after);
        sequence::lemma_stands_split(bits, at, before, pair);
        sequence::lemma_stands_split(
            bits,
            at + before.len(),
            bits::value_bits(symbol, 8),
            bits::value_bits(length, width),
        );
        lemma2_to64();
        bit_laws::lemma_read_msb(bits, at + before.len(), symbol, 8);
        bit_laws::lemma_read_msb(bits, at + before.len() + 8, length, width);
        lemma_read_listed(bits, at, symbols, lengths, width, i + 1);
        assert(symbols.subrange(0, i as int).push(symbol as u8) =~= symbols.subrange(0, i as int + 1));
        assert(lengths.subrange(0, i as int).push((length + 1) as u8) =~= lengths.subrange(0, i as int + 1));
    }
}

/// The listed header is read back.
proof fn lemma_read_sparse(symbols: Seq<u8>, lengths: Seq<u8>, more: Seq<u8>)
    requires
        huffman_encoder::sparse_table(symbols, lengths) is Some,
    ensures
        ({
            let table = huffman_encoder::sparse_table(symbols, lengths)->0;
            tables::huffman_table(table + more) == match huffman::canonical_table(symbols, lengths) {
                Some(entries) => Some((entries, table.len())),
                None => tables::huffman_table(table + more),
            }
        }),
{
    let table = huffman_encoder::sparse_table(symbols, lengths)->0;
    let all = huffman_encoder::sparse_bits(symbols, lengths);
    let bits = bits::msb_bits(table + more);
    bit_laws::lemma_msb_front(all, more);
    assert(sequence::stands(bits, 0, all));
    let width = huffman_encoder::length_width(
        huffman_encoder::longest(lengths, lengths.len()) as nat,
    );
    assert forall|k: int| 0 <= k < lengths.len() implies 1 <= #[trigger] lengths[k] <= 11
        && lengths[k] - 1 < pow2(width) by {
        huffman_encoder::lemma_length_width(lengths, k);
    }
    huffman_encoder::lemma_length_width(lengths, 0);
    let a = bits::value_bits(0, 2);
    let b = bits::value_bits(symbols.len(), 8);
    let c = bits::value_bits(width, 3);
    let d = huffman_encoder::listed_bits(symbols, lengths, width, symbols.len());
    bits::lemma_value_bits_len(0, 2);
    bits::lemma_value_bits_len(symbols.len(), 8);
    bits::lemma_value_bits_len(width, 3);
    sequence::lemma_stands_split(bits, 0, a + b + c, d);
    sequence::lemma_stands_split(bits, 0, a + b, c);
    sequence::lemma_stands_split(bits, 0, a, b);
    lemma2_to64();
    bit_laws::lemma_read_msb(bits, 0, 0, 2);
    bit_laws::lemma_read_msb(bits, 2, symbols.len(), 8);
    bit_laws::lemma_read_msb(bits, 10, width, 3);
    lemma_read_listed(bits, 13, symbols, lengths, width, 0);
    assert(symbols.subrange(0, 0) =~= Seq::<u8>::empty());
    assert(lengths.subrange(0, 0) =~= Seq::<u8>::empty());
    assert(huffman_encoder::listed_bits(symbols, lengths, width, 0).len() == 0);
    assert(tables::old_lengths(bits) == Some((symbols, lengths, all.len())));
}

// ---------------------------------------------------------------------------
// Headers before other bits
// ---------------------------------------------------------------------------

proof fn lemma_extend_read(bits: Seq<bool>, longer: Seq<bool>, at: nat, count: nat)
    requires
        sequence::stands(longer, 0, bits),
    ensures
        readers::read_bits(bits, at, count) is Some ==> readers::read_bits(longer, at, count)
            == readers::read_bits(bits, at, count),
{
    if readers::read_bits(bits, at, count) is Some {
        assert(longer.subrange(0, bits.len() as int).subrange(at as int, (at + count) as int)
            =~= longer.subrange(at as int, (at + count) as int));
    }
}

proof fn lemma_extend_zero_run(bits: Seq<bool>, longer: Seq<bool>, at: nat)
    requires
        sequence::stands(longer, 0, bits),
        at + bits::zero_run(bits, at) < bits.len(),
    ensures
        bits::zero_run(longer, at) == bits::zero_run(bits, at),
    decreases bits.len() - at,
{
    if at < bits.len() {
        sequence::lemma_stands_index(longer, 0, bits, at as int);
        if !bits[at as int] {
            lemma_extend_zero_run(bits, longer, at + 1);
        }
    }
}

proof fn lemma_extend_unaries(
    bits: Seq<bool>,
    longer: Seq<bool>,
    at: nat,
    count: nat,
    values: Seq<usize>,
)
    requires
        sequence::stands(longer, 0, bits),
    ensures
        tables::read_unaries(bits, at, count, values) is Some ==> tables::read_unaries(
            longer,
            at,
            count,
            values,
        ) == tables::read_unaries(bits, at, count, values),
    decreases count,
{
    if count > 0 {
        match readers::read_unary(bits, at) {
            None => {},
            Some((value, next)) => {
                lemma_extend_zero_run(bits, longer, at);
                lemma_extend_unaries(
                    bits,
                    longer,
                    next,
                    (count - 1) as nat,
                    values.push(value as usize),
                );
            },
        }
    }
}

proof fn lemma_extend_low_bits(
    bits: Seq<bool>,
    longer: Seq<bool>,
    at: nat,
    values: Seq<usize>,
    i: nat,
    count: nat,
    forced: nat,
)
    requires
        sequence::stands(longer, 0, bits),
    ensures
        tables::read_low_bits(bits, at, values, i, count, forced) is Some
            ==> tables::read_low_bits(longer, at, values, i, count, forced)
            == tables::read_low_bits(bits, at, values, i, count, forced),
    decreases count - i,
{
    if i < count {
        lemma_extend_read(bits, longer, at, forced);
        match readers::read_bits(bits, at, forced) {
            None => {},
            Some((low, next)) => {
                lemma_extend_low_bits(
                    bits,
                    longer,
                    next,
                    values.update(i as int, (values[i as int] * pow2(forced) + low) as usize),
                    i + 1,
                    count,
                    forced,
                );
            },
        }
    }
}

proof fn lemma_extend_ranges(
    bits: Seq<bool>,
    longer: Seq<bool>,
    at: nat,
    codes: Seq<usize>,
    i: nat,
    symbol: nat,
    used: nat,
    symbol_count: nat,
    ranges: Seq<(usize, usize)>,
)
    requires
        sequence::stands(longer, 0, bits),
    ensures
        tables::ranges_from(bits, at, codes, i, symbol, used, symbol_count, ranges) is Some
            ==> tables::ranges_from(longer, at, codes, i, symbol, used, symbol_count, ranges)
            == tables::ranges_from(bits, at, codes, i, symbol, used, symbol_count, ranges),
    decreases codes.len() - i,
{
    if i + 1 < codes.len() {
        let count_width = codes[i as int];
        let space_width = codes[i as int + 1];
        if count_width < 9 && space_width < 8 {
            lemma_extend_read(bits, longer, at, count_width as nat);
            match readers::read_bits(bits, at, count_width as nat) {
                None => {},
                Some((low, next)) => {
                    let count = low + pow2(count_width as nat);
                    lemma_extend_read(bits, longer, next, (space_width + 1) as nat);
                    match readers::read_bits(bits, next, (space_width + 1) as nat) {
                        None => {},
                        Some((low, next)) => {
                            let space = (low + pow2((space_width + 1) as nat) - 1) as nat;
                            if symbol + count <= 256 {
                                lemma_extend_ranges(
                                    bits,
                                    longer,
                                    next,
                                    codes,
                                    i + 2,
                                    symbol + count + space,
                                    used + count,
                                    symbol_count,
                                    ranges.push((symbol as usize, count as usize)),
                                );
                            }
                        },
                    }
                },
            }
        }
    }
}

proof fn lemma_extend_symbol_ranges(
    bits: Seq<bool>,
    longer: Seq<bool>,
    at: nat,
    codes: Seq<usize>,
    symbol_count: nat,
)
    requires
        sequence::stands(longer, 0, bits),
    ensures
        tables::symbol_ranges(bits, at, codes, symbol_count) is Some ==> tables::symbol_ranges(
            longer,
            at,
            codes,
            symbol_count,
        ) == tables::symbol_ranges(bits, at, codes, symbol_count),
{
    if codes.len() % 2 == 0 {
        lemma_extend_ranges(bits, longer, at, codes, 0, 0, 0, symbol_count, seq![]);
    } else {
        let width = codes[0];
        if width < 8 {
            lemma_extend_read(bits, longer, at, (width + 1) as nat);
            match readers::read_bits(bits, at, (width + 1) as nat) {
                None => {},
                Some((low, next)) => {
                    lemma_extend_ranges(
                        bits,
                        longer,
                        next,
                        codes,
                        1,
                        (low + pow2((width + 1) as nat) - 1) as nat,
                        0,
                        symbol_count,
                        seq![],
                    );
                },
            }
        }
    }
}

/// A new header is read the same whatever follows it.
proof fn lemma_extend_new_lengths(bits: Seq<bool>, longer: Seq<bool>)
    requires
        sequence::stands(longer, 0, bits),
        tables::new_lengths(bits) is Some,
    ensures
        tables::new_lengths(longer) == tables::new_lengths(bits),
{
    lemma_extend_read(bits, longer, 0, 2);
    lemma_extend_read(bits, longer, 2, 2);
    lemma_extend_read(bits, longer, 4, 8);
    let forced = readers::read_bits(bits, 2, 2)->Some_0.0;
    let count = readers::read_bits(bits, 4, 8)->Some_0.0 + 1;
    let at = 12nat;
    assert(tables::new_lengths_of(bits, at, forced, count) is Some);
    if count != 256 {
        let range = 2 * if count <= 257 - count {
            count
        } else {
            (257 - count) as nat
        };
        lemma_extend_read(bits, longer, at, writers::log2((range - 1) as nat) + 1);
    }
    let (extra, at) = tables::range_code_count(bits, at, count)->0;
    assert(tables::range_code_count(longer, 12, count) == tables::range_code_count(
        bits,
        12,
        count,
    ));
    lemma_extend_unaries(bits, longer, at, count + extra, seq![]);
    let (values, at) = tables::read_unaries(bits, at, count + extra, seq![])->0;
    lemma_extend_low_bits(bits, longer, at, values, 0, count, forced);
    let (values, at) = tables::read_low_bits(bits, at, values, 0, count, forced)->0;
    lemma_extend_symbol_ranges(
        bits,
        longer,
        at,
        values.subrange(count as int, values.len() as int),
        count,
    );
}

/// A header of consecutive symbols is read back.
proof fn lemma_read_compact(minimum: u8, maximum: u8, more: Seq<u8>)
    requires
        huffman_encoder::compact_table(minimum, maximum) is Some,
    ensures
        ({
            let (header, entries) = huffman_encoder::compact_table(minimum, maximum)->0;
            &&& tables::huffman_table(header + more) == Some((entries, header.len()))
            &&& huffman_codes::prefix_free(entries)
        }),
{
    reveal(huffman_encoder::compact_table);
    let (header, entries) = huffman_encoder::compact_table(minimum, maximum)->0;
    let bits = bits::msb_bits(header);
    let longer = bits::msb_bits(header + more);
    assert(longer.subrange(0, bits.len() as int) =~= bits) by {
        assert forall|i: int| 0 <= i < bits.len() implies longer[i] == bits[i] by {
            assert((header + more)[i / 8] == header[i / 8]);
        }
    }
    lemma_extend_new_lengths(bits, longer);
    huffman_codes::lemma_table_of_range(tables::new_lengths(bits));
    lemma_extend_read(bits, longer, 0, 2);
}

// ---------------------------------------------------------------------------
// Symbols
// ---------------------------------------------------------------------------

proof fn lemma_find_none(entries: Seq<(u16, u8, u8)>, length: nat, code: nat, from: nat)
    requires
        forall|i: int|
            from <= i < entries.len() ==> !((#[trigger] entries[i]).1 == length && entries[i].0
                == code),
    ensures
        huffman::find_symbol(entries, length, code, from) is None,
    decreases entries.len() - from,
{
    if from < entries.len() {
        let entry = entries[from as int];
        lemma_find_none(entries, length, code, from + 1);
    }
}

proof fn lemma_find_entry(entries: Seq<(u16, u8, u8)>, k: int, from: nat)
    requires
        huffman_codes::prefix_free(entries),
        from <= k < entries.len(),
    ensures
        huffman::find_symbol(entries, entries[k].1 as nat, entries[k].0 as nat, from) == Some(
            entries[k].2,
        ),
    decreases k - from,
{
    let entry = entries[from as int];
    if from < k {
        if entry.1 == entries[k].1 && entry.0 == entries[k].0 {
            bits::lemma_code_bits_len(entry.0 as nat, entry.1 as nat);
            assert(huffman_codes::entry_bits(entries[k]).subrange(0, entry.1 as int)
                =~= huffman_codes::entry_bits(entries[from as int]));
            assert(false);
        }
        lemma_find_entry(entries, k, from + 1);
    }
}

proof fn lemma_code_of_entry(entries: Seq<(u16, u8, u8)>, symbol: u8) -> (k: int)
    requires
        huffman_encoder::code_of(entries, symbol) is Some,
    ensures
        0 <= k < entries.len(),
        entries[k].2 == symbol,
        huffman_encoder::code_of(entries, symbol) == Some((entries[k].0, entries[k].1)),
    decreases entries.len(),
{
    if entries.last().2 == symbol {
        entries.len() - 1
    } else {
        lemma_code_of_entry(entries.drop_last(), symbol)
    }
}

/// A symbol whose code stands at `at` is read back, whatever length the search
/// has reached.
proof fn lemma_read_symbol(
    entries: Seq<(u16, u8, u8)>,
    bits: Seq<bool>,
    at: nat,
    k: int,
    length: nat,
    offset: usize,
)
    requires
        huffman_codes::prefix_free(entries),
        0 <= k < entries.len(),
        length < entries[k].1,
        sequence::stands(bits, at, huffman_codes::entry_bits(entries[k])),
    ensures
        huffman::huffman_symbol(entries, bits, at, length, offset) == Ok::<(u8, nat), KrakenError>(
            (entries[k].2, (at + entries[k].1) as nat),
        ),
    decreases entries[k].1 - length,
{
    let entry = entries[k];
    let whole = huffman_codes::entry_bits(entry);
    assert(1 <= entry.1 <= 11);
    bits::lemma_code_bits_len(entry.0 as nat, entry.1 as nat);
    let part = bits.subrange(at as int, (at + length + 1) as int);
    let code = bits::lsb_value(part);
    assert(part =~= whole.subrange(0, length as int + 1)) by {
        assert(bits.subrange(at as int, (at + whole.len()) as int).subrange(0, length as int + 1)
            =~= part);
    }
    if length + 1 == entry.1 {
        assert(whole.subrange(0, length as int + 1) =~= whole);
        bits::lemma_lsb_value_of_bits(entry.0 as nat, entry.1 as nat);
        lemma_find_entry(entries, k, 0);
    } else {
        assert forall|i: int| 0 <= i < entries.len() implies !((#[trigger] entries[i]).1 == length
            + 1 && entries[i].0 == code) by {
            if entries[i].1 == length + 1 && entries[i].0 == code {
                bits::lemma_bits_of_lsb_value(part);
                assert(huffman_codes::entry_bits(entries[i]) == part);
                assert(huffman_codes::entry_bits(entries[k]).subrange(0, entries[i].1 as int)
                    == huffman_codes::entry_bits(entries[i]));
                assert(false);
            }
        }
        lemma_find_none(entries, length + 1, code, 0);
        lemma_read_symbol(entries, bits, at, k, length + 1, offset);
    }
}

// ---------------------------------------------------------------------------
// Streams
// ---------------------------------------------------------------------------

/// The bits of one stream for the first `n` bytes.
spec fn turn_before(entries: Seq<(u16, u8, u8)>, input: Seq<u8>, n: nat, turn: int) -> Seq<bool> {
    huffman_encoder::turn_bits(entries, input.subrange(0, n as int), turn)
}

proof fn lemma_turn_step(entries: Seq<(u16, u8, u8)>, input: Seq<u8>, n: nat, turn: int)
    requires
        n < input.len(),
    ensures
        turn_before(entries, input, n + 1, turn) == if n % 3 == turn {
            match huffman_encoder::code_of(entries, input[n as int]) {
                None => turn_before(entries, input, n, turn),
                Some(code) => turn_before(entries, input, n, turn) + bits::code_bits(
                    code.0 as nat,
                    code.1 as nat,
                ),
            }
        } else {
            turn_before(entries, input, n, turn)
        },
{
    assert(input.subrange(0, n as int + 1).drop_last() =~= input.subrange(0, n as int));
}

proof fn lemma_turn_prefix(entries: Seq<(u16, u8, u8)>, input: Seq<u8>, i: nat, n: nat, turn: int)
    requires
        i <= n <= input.len(),
    ensures
        sequence::stands(
            turn_before(entries, input, n, turn),
            0,
            turn_before(entries, input, i, turn),
        ),
    decreases n - i,
{
    let part = turn_before(entries, input, i, turn);
    if i == n {
        assert(part.subrange(0, part.len() as int) =~= part);
    } else {
        lemma_turn_prefix(entries, input, i, (n - 1) as nat, turn);
        lemma_turn_step(entries, input, (n - 1) as nat, turn);
        let before = turn_before(entries, input, (n - 1) as nat, turn);
        let after = turn_before(entries, input, n, turn);
        assert(after.subrange(0, before.len() as int) =~= before);
        sequence::lemma_stands_within(after, 0, before, 0, part);
    }
}

/// The next byte of the stream whose turn it is.
proof fn lemma_read_turn(
    entries: Seq<(u16, u8, u8)>,
    input: Seq<u8>,
    n: nat,
    turn: int,
    bits: Seq<bool>,
    offset: usize,
)
    requires
        huffman_codes::prefix_free(entries),
        huffman_encoder::all_coded(entries, input),
        n < input.len(),
        n % 3 == turn,
        sequence::stands(bits, 0, turn_before(entries, input, input.len(), turn)),
    ensures
        huffman::huffman_symbol(
            entries,
            bits,
            turn_before(entries, input, n, turn).len(),
            0,
            offset,
        ) == Ok::<(u8, nat), KrakenError>(
            (input[n as int], turn_before(entries, input, n + 1, turn).len()),
        ),
{
    assert(huffman_encoder::code_of(entries, input[n as int]) is Some);
    let k = lemma_code_of_entry(entries, input[n as int]);
    let before = turn_before(entries, input, n, turn);
    let after = turn_before(entries, input, n + 1, turn);
    lemma_turn_step(entries, input, n, turn);
    lemma_turn_prefix(entries, input, n + 1, input.len(), turn);
    sequence::lemma_stands_within(
        bits,
        0,
        turn_before(entries, input, input.len(), turn),
        0,
        after,
    );
    sequence::lemma_stands_split(bits, 0, before, huffman_codes::entry_bits(entries[k]));
    assert(1 <= entries[k].1 <= 11);
    bits::lemma_code_bits_len(entries[k].0 as nat, entries[k].1 as nat);
    lemma_read_symbol(entries, bits, before.len(), k, 0, offset);
}

/// The bytes from the first `n` on are read back.
proof fn lemma_read_symbols(
    entries: Seq<(u16, u8, u8)>,
    input: Seq<u8>,
    n: nat,
    streams: (Seq<bool>, Seq<bool>, Seq<bool>),
    offset: usize,
)
    requires
        huffman_codes::prefix_free(entries),
        huffman_encoder::all_coded(entries, input),
        n <= input.len(),
        sequence::stands(streams.0, 0, turn_before(entries, input, input.len(), 0)),
        sequence::stands(streams.1, 0, turn_before(entries, input, input.len(), 1)),
        sequence::stands(streams.2, 0, turn_before(entries, input, input.len(), 2)),
    ensures
        huffman::huffman_symbols(
            entries,
            streams,
            input.subrange(0, n as int),
            (
                turn_before(entries, input, n, 0).len(),
                turn_before(entries, input, n, 1).len(),
                turn_before(entries, input, n, 2).len(),
            ),
            input.len(),
            offset,
        ) == Ok::<(Seq<u8>, (nat, nat, nat)), KrakenError>(
            (
                input,
                (
                    turn_before(entries, input, input.len(), 0).len(),
                    turn_before(entries, input, input.len(), 1).len(),
                    turn_before(entries, input, input.len(), 2).len(),
                ),
            ),
        ),
    decreases input.len() - n,
{
    if n == input.len() {
        assert(input.subrange(0, n as int) =~= input);
    } else {
        lemma_turn_step(entries, input, n, 0);
        lemma_turn_step(entries, input, n, 1);
        lemma_turn_step(entries, input, n, 2);
        assert(input.subrange(0, n as int).push(input[n as int]) =~= input.subrange(0, n as int + 1));
        if n % 3 == 0 {
            lemma_read_turn(entries, input, n, 0, streams.0, offset);
        } else if n % 3 == 1 {
            lemma_read_turn(entries, input, n, 1, streams.1, offset);
        } else {
            lemma_read_turn(entries, input, n, 2, streams.2, offset);
        }
        lemma_read_symbols(entries, input, n + 1, streams, offset);
    }
}

/// The three streams are read back.
proof fn lemma_read_streams(entries: Seq<(u16, u8, u8)>, input: Seq<u8>, offset: usize)
    requires
        huffman_codes::prefix_free(entries),
        huffman_encoder::all_coded(entries, input),
        bits::bytes_for(huffman_encoder::turn_bits(entries, input, 0).len()) <= 0xffff,
    ensures
        huffman::huffman_group(
            entries,
            huffman_encoder::stream_bytes(entries, input),
            input.len(),
            offset,
        ) == Ok::<Seq<u8>, KrakenError>(input),
{
    let payload = huffman_encoder::stream_bytes(entries, input);
    let t0 = huffman_encoder::turn_bits(entries, input, 0);
    let t1 = huffman_encoder::turn_bits(entries, input, 1);
    let t2 = huffman_encoder::turn_bits(entries, input, 2);
    let first = bits::lsb_pack(t0);
    let opposing = bits::lsb_pack(t2) + bits::lsb_pack(t1).reverse();
    let streams = payload.subrange(2, payload.len() as int);
    assert(streams =~= first + opposing);
    assert(streams.subrange(0, first.len() as int) =~= first);
    assert(streams.subrange(first.len() as int, streams.len() as int) =~= opposing);
    assert(cursor::le16(payload, 0) == first.len());
    bit_laws::lemma_lsb_front(t0, seq![]);
    assert(first + Seq::<u8>::empty() =~= first);
    bit_laws::lemma_lsb_ends(t2, t1);
    assert(input.subrange(0, input.len() as int) =~= input);
    assert(input.subrange(0, 0) =~= Seq::<u8>::empty());
    lemma_read_symbols(
        entries,
        input,
        0,
        (bits::lsb_bits(first), bits::lsb_bits(opposing.reverse()), bits::lsb_bits(opposing)),
        offset,
    );
}

/// A header that is read back, and streams after it.
proof fn lemma_read_payload(
    table: Seq<u8>,
    entries: Seq<(u16, u8, u8)>,
    input: Seq<u8>,
    offset: usize,
)
    requires
        huffman_codes::prefix_free(entries),
        huffman_encoder::all_coded(entries, input),
        huffman_encoder::coded_payload(table, entries, input) is Some,
        tables::huffman_table(table + huffman_encoder::stream_bytes(entries, input)) == Some(
            (entries, table.len()),
        ),
    ensures
        arrays::one_partition(
            huffman_encoder::coded_payload(table, entries, input)->0,
            input.len(),
            offset,
        ) == Ok::<Seq<u8>, KrakenError>(input),
{
    let streams = huffman_encoder::stream_bytes(entries, input);
    let payload = table + streams;
    assert(payload.subrange(table.len() as int, payload.len() as int) =~= streams);
    lemma_read_streams(entries, input, (offset + table.len()) as usize);
}

proof fn lemma_one_symbol(input: Seq<u8>)
    requires
        huffman_encoder::used_symbols(huffman_encoder::frequencies(input), 256).len() == 1,
        input.len() <= 0x3_ffff,
    ensures
        sequence::repeated(
            huffman_encoder::used_symbols(huffman_encoder::frequencies(input), 256)[0],
            input.len(),
        ) == input,
{
    let counts = huffman_encoder::frequencies(input);
    let symbols = huffman_encoder::used_symbols(counts, 256);
    huffman_encoder::lemma_used_symbols(counts, 256);
    assert forall|i: int| 0 <= i < input.len() implies input[i] == symbols[0] by {
        huffman_encoder::lemma_occurs(input, i);
        huffman_encoder::lemma_occurrences_bound(input, input[i] as int);
        assert(counts[input[i] as int] != 0);
        assert(symbols.contains((input[i] as int) as u8));
    }
    assert(sequence::repeated(symbols[0], input.len()) =~= input);
}

/// Header and streams are read back.
proof fn lemma_read_huffman_payload(
    input: Seq<u8>,
    symbols: Seq<u8>,
    lengths: Seq<u8>,
    offset: usize,
)
    requires
        huffman_encoder::huffman_payload(input, symbols, lengths) is Some,
    ensures
        arrays::one_partition(
            huffman_encoder::huffman_payload(input, symbols, lengths)->0,
            input.len(),
            offset,
        ) == Ok::<Seq<u8>, KrakenError>(input),
{
    let payload = huffman_encoder::huffman_payload(input, symbols, lengths)->0;
    let entries = huffman::canonical_table(symbols, lengths)->0;
    let table = huffman_encoder::sparse_table(symbols, lengths)->0;
    huffman_codes::lemma_canonical_prefix_free(symbols, lengths);
    if huffman_encoder::coded_payload(table, entries, input) == Some(payload) {
        lemma_read_sparse(symbols, lengths, huffman_encoder::stream_bytes(entries, input));
        lemma_read_payload(table, entries, input, offset);
    } else {
        let (compact, compact_entries) = huffman_encoder::compact_table(
            symbols.first(),
            symbols.last(),
        )->0;
        lemma_read_compact(
            symbols.first(),
            symbols.last(),
            huffman_encoder::stream_bytes(compact_entries, input),
        );
        lemma_read_payload(compact, compact_entries, input, offset);
    }
}

/// An array of one repeated byte is read back.
proof fn lemma_read_one_symbol(
    bytes: Seq<u8>,
    at: nat,
    base: nat,
    required: Option<usize>,
    symbol: u8,
    input: Seq<u8>,
)
    requires
        huffman_encoder::envelope(3, seq![symbol], input.len()) is Some,
        sequence::stands(bytes, at, huffman_encoder::envelope(3, seq![symbol], input.len())->0),
        required is Some ==> required->0 == input.len(),
        sequence::repeated(symbol, input.len()) == input,
    ensures
        arrays::array(bytes, at, base, required, 0) == Ok::<(Seq<u8>, nat), KrakenError>(
            (input, at + huffman_encoder::envelope(3, seq![symbol], input.len())->0.len()),
        ),
        bytes[at as int] < 0x80,
{
    let payload = seq![symbol];
    let offset = (base + (at + 5)) as usize;
    law_envelope(bytes, at, base, 3, payload, input.len());
    assert(arrays::rle(payload, input.len(), offset, 1) == Ok::<Seq<u8>, KrakenError>(input));
    arrays::lemma_coded_array(bytes, at, base, required, 3, 1, input.len(), at + 5);
}

/// An array whose payload is read back.
proof fn lemma_read_partition(
    bytes: Seq<u8>,
    at: nat,
    base: nat,
    required: Option<usize>,
    payload: Seq<u8>,
    input: Seq<u8>,
)
    requires
        huffman_encoder::envelope(2, payload, input.len()) is Some,
        sequence::stands(bytes, at, huffman_encoder::envelope(2, payload, input.len())->0),
        required is Some ==> required->0 == input.len(),
        arrays::one_partition(payload, input.len(), (base + (at + 5)) as usize) == Ok::<
            Seq<u8>,
            KrakenError,
        >(input),
    ensures
        arrays::array(bytes, at, base, required, 0) == Ok::<(Seq<u8>, nat), KrakenError>(
            (input, at + huffman_encoder::envelope(2, payload, input.len())->0.len()),
        ),
        bytes[at as int] < 0x80,
        huffman_encoder::envelope(2, payload, input.len())->0.len() > 0,
{
    law_envelope(bytes, at, base, 2, payload, input.len());
    arrays::lemma_coded_array(bytes, at, base, required, 2, payload.len(), input.len(), at + 5);
}

/// A Huffman-coded array is read back.
pub proof fn law_huffman_array(
    bytes: Seq<u8>,
    at: nat,
    base: nat,
    required: Option<usize>,
    input: Seq<u8>,
)
    requires
        huffman_encoder::huffman_array(input) is Some,
        sequence::stands(bytes, at, huffman_encoder::huffman_array(input)->0),
        required is Some ==> required->0 == input.len(),
    ensures
        arrays::array(bytes, at, base, required, 0) == Ok::<(Seq<u8>, nat), KrakenError>(
            (input, at + huffman_encoder::huffman_array(input)->0.len()),
        ),
        bytes[at as int] < 0x80,
        huffman_encoder::huffman_array(input)->0.len() > 0,
{
    let counts = huffman_encoder::frequencies(input);
    let symbols = huffman_encoder::used_symbols(counts, 256);
    let offset = (base + (at + 5)) as usize;
    if symbols.len() == 1 {
        law_envelope(bytes, at, base, 3, seq![symbols[0]], input.len());
        lemma_one_symbol(input);
        lemma_read_one_symbol(bytes, at, base, required, symbols[0], input);
    } else {
        let lengths = huffman_encoder::code_lengths(symbols, counts)->0;
        let payload = huffman_encoder::huffman_payload(input, symbols, lengths)->0;
        lemma_read_huffman_payload(input, symbols, lengths, offset);
        lemma_read_partition(bytes, at, base, required, payload, input);
    }
}

} // verus!
