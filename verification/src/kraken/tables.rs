//! The headers that describe Huffman tables.

use super::bits;
use super::huffman;
use super::huffman::{canonical_huffman_table, OldHuffmanTable};
use super::readers;
use super::readers::{power_of_two, MsbReader};
use super::KrakenError;
use vstd::arithmetic::power2::{lemma2_to64, lemma_pow2_pos, lemma_pow2_strictly_increases, pow2};
use vstd::prelude::*;

verus! {

/// The signed number of a code in which odd codes are negative.
pub open spec fn unzigzag(code: nat) -> int {
    if code % 2 == 0 {
        (code / 2) as int
    } else {
        -(code / 2) - 1
    }
}

/// Computes the signed number of a code in which odd codes are negative.
fn signed_delta(code: usize) -> (result: i32)
    requires
        code <= 0x0fff_ffff,
    ensures
        result == unzigzag(code as nat),
{
    if code % 2 == 0 {
        (code / 2) as i32
    } else {
        -((code / 2) as i32) - 1
    }
}

// ---------------------------------------------------------------------------
// Old tables
// ---------------------------------------------------------------------------

/// `count` pairs of a symbol and a code length less one.
pub open spec fn sparse_lengths(
    bits: Seq<bool>,
    at: nat,
    count: nat,
    length_bits: nat,
    symbols: Seq<u8>,
    lengths: Seq<u8>,
) -> Option<(Seq<u8>, Seq<u8>, nat)>
    decreases count,
{
    if count == 0 {
        Some((symbols, lengths, at))
    } else {
        match readers::read_bits(bits, at, 8) {
            None => None,
            Some((symbol, next)) => match readers::read_bits(bits, next, length_bits) {
                None => None,
                Some((length, next)) => sparse_lengths(
                    bits,
                    next,
                    (count - 1) as nat,
                    length_bits,
                    symbols.push(symbol as u8),
                    lengths.push((length + 1) as u8),
                ),
            },
        }
    }
}

/// `run` code lengths of consecutive symbols, each as its difference from a
/// running average (in quarters).
pub open spec fn dense_run(
    bits: Seq<bool>,
    at: nat,
    run: nat,
    forced: nat,
    symbol: nat,
    average: int,
    symbols: Seq<u8>,
    lengths: Seq<u8>,
) -> Option<(nat, int, Seq<u8>, Seq<u8>)>
    decreases run,
{
    if run == 0 {
        Some((at, average, symbols, lengths))
    } else {
        match readers::read_gamma_x(bits, at, forced) {
            None => None,
            Some((code, next)) => {
                let length = unzigzag(code) + (average + 2) / 4;
                if length < 1 || length > 11 {
                    None
                } else {
                    dense_run(
                        bits,
                        next,
                        (run - 1) as nat,
                        forced,
                        symbol + 1,
                        length + (3 * average + 2) / 4,
                        symbols.push(symbol as u8),
                        lengths.push(length as u8),
                    )
                }
            },
        }
    }
}

pub proof fn lemma_dense_run_at(
    bits: Seq<bool>,
    at: nat,
    run: nat,
    forced: nat,
    symbol: nat,
    average: int,
    symbols: Seq<u8>,
    lengths: Seq<u8>,
)
    ensures
        dense_run(bits, at, run, forced, symbol, average, symbols, lengths) matches Some(r)
            ==> r.0 >= at,
    decreases run,
{
    if run > 0 {
        match readers::read_gamma_x(bits, at, forced) {
            None => {},
            Some((code, next)) => {
                let length = unzigzag(code) + (average + 2) / 4;
                lemma_dense_run_at(
                    bits,
                    next,
                    (run - 1) as nat,
                    forced,
                    symbol + 1,
                    length + (3 * average + 2) / 4,
                    symbols.push(symbol as u8),
                    lengths.push(length as u8),
                );
            },
        }
    }
}

/// Runs of coded symbols from `symbol` on, with gaps between them.
pub open spec fn dense_lengths(
    bits: Seq<bool>,
    at: nat,
    forced: nat,
    symbol: nat,
    average: int,
    symbols: Seq<u8>,
    lengths: Seq<u8>,
) -> Option<(Seq<u8>, Seq<u8>, nat)>
    decreases bits.len() - at,
{
    match readers::read_gamma_run(bits, at) {
        None => None,
        Some((run, next)) => if symbol + run > 256 {
            None
        } else {
            proof {
                lemma_dense_run_at(bits, next, run, forced, symbol, average, symbols, lengths);
            }
            match dense_run(bits, next, run, forced, symbol, average, symbols, lengths) {
                None => None,
                Some((next, average, symbols, lengths)) => if symbol + run == 256 {
                    Some((symbols, lengths, next))
                } else {
                    match readers::read_gamma_run(bits, next) {
                        None => None,
                        Some((gap, next)) => if symbol + run + gap > usize::MAX {
                            None
                        } else if symbol + run + gap >= 256 {
                            Some((symbols, lengths, next))
                        } else {
                            dense_lengths(
                                bits,
                                next,
                                forced,
                                symbol + run + gap,
                                average,
                                symbols,
                                lengths,
                            )
                        },
                    }
                },
            }
        },
    }
}

/// The symbols and code lengths of an old table, and where its header ends.
pub open spec fn old_lengths(bits: Seq<bool>) -> Option<(Seq<u8>, Seq<u8>, nat)> {
    match readers::read_bits(bits, 0, 2) {
        None => None,
        Some((kind, at)) => if kind == 0 {
            match readers::read_bits(bits, at, 8) {
                None => None,
                Some((count, at)) => if count == 0 {
                    None
                } else if count == 1 {
                    match readers::read_bits(bits, at, 8) {
                        None => None,
                        Some((symbol, at)) => Some((seq![symbol as u8], seq![1u8], at)),
                    }
                } else {
                    match readers::read_bits(bits, at, 3) {
                        None => None,
                        Some((length_bits, at)) => if length_bits > 4 {
                            None
                        } else {
                            sparse_lengths(bits, at, count, length_bits, seq![], seq![])
                        },
                    }
                },
            }
        } else if kind == 1 {
            match readers::read_bits(bits, at, 2) {
                None => None,
                Some((forced, at)) => match readers::read_bits(bits, at, 1) {
                    None => None,
                    Some((skip, at)) => {
                        let lengths = if skip != 0 {
                            dense_lengths(bits, at, forced, 0, 32, seq![], seq![])
                        } else {
                            match readers::read_gamma_run(bits, at) {
                                None => None,
                                Some((gap, at)) => if gap >= 256 {
                                    None
                                } else {
                                    dense_lengths(bits, at, forced, gap, 32, seq![], seq![])
                                },
                            }
                        };
                        match lengths {
                            None => None,
                            Some((symbols, lengths, at)) => if symbols.len() < 2 {
                                None
                            } else {
                                Some((symbols, lengths, at))
                            },
                        }
                    },
                },
            }
        } else {
            None
        },
    }
}

/// The table that follows from a header's symbols and code lengths, and how
/// many bytes the header takes.
pub open spec fn table_of(header: Option<(Seq<u8>, Seq<u8>, nat)>) -> Option<
    (Seq<(u16, u8, u8)>, nat),
> {
    match header {
        None => None,
        Some((symbols, lengths, at)) => match huffman::canonical_table(symbols, lengths) {
            None => None,
            Some(entries) => Some((entries, bits::bytes_for(at))),
        },
    }
}

fn read_sparse_lengths(reader: &mut MsbReader<'_>, count: usize, length_bits: usize) -> (result:
    Option<(Vec<u8>, Vec<u8>)>)
    requires
        old(reader).wf(),
        length_bits <= 4,
    ensures
        final(reader).wf(),
        final(reader).bits() == old(reader).bits(),
        match sparse_lengths(
            old(reader).bits(),
            old(reader).at(),
            count as nat,
            length_bits as nat,
            seq![],
            seq![],
        ) {
            None => result is None,
            Some((symbols, lengths, at)) => result matches Some(r) && r.0@ == symbols && r.1@
                == lengths && final(reader).at() == at,
        },
{
    let mut symbols: Vec<u8> = Vec::new();
    let mut lengths: Vec<u8> = Vec::new();
    let mut left: usize = count;
    while left > 0
        invariant
            left <= count,
            length_bits <= 4,
            reader.wf(),
            reader.bits() == old(reader).bits(),
            sparse_lengths(
                reader.bits(),
                reader.at(),
                left as nat,
                length_bits as nat,
                symbols@,
                lengths@,
            ) == sparse_lengths(
                old(reader).bits(),
                old(reader).at(),
                count as nat,
                length_bits as nat,
                seq![],
                seq![],
            ),
        decreases left,
    {
        let ghost all = reader.bits();
        let ghost at = reader.at();
        let symbol: usize = match reader.read(8) {
            Some(symbol) => symbol,
            None => return None,
        };
        let length: usize = match reader.read(length_bits) {
            Some(length) => length,
            None => return None,
        };
        proof {
            lemma2_to64();
            bits::lemma_bits_of_msb_value(
                all.subrange((at + 8) as int, (at + 8 + length_bits) as int),
            );
            if length_bits < 4 {
                lemma_pow2_strictly_increases(length_bits as nat, 4);
            }
        }
        symbols.push(symbol as u8);
        lengths.push(length as u8 + 1);
        left = left - 1;
    }
    Some((symbols, lengths))
}

fn read_dense_run(
    reader: &mut MsbReader<'_>,
    run: usize,
    forced: usize,
    first: usize,
    initial: i32,
    symbols: &mut Vec<u8>,
    lengths: &mut Vec<u8>,
) -> (result: Option<i32>)
    requires
        old(reader).wf(),
        forced <= 3,
        first + run <= 256,
        0 <= initial <= 100,
    ensures
        final(reader).wf(),
        final(reader).bits() == old(reader).bits(),
        match dense_run(
            old(reader).bits(),
            old(reader).at(),
            run as nat,
            forced as nat,
            first as nat,
            initial as int,
            old(symbols)@,
            old(lengths)@,
        ) {
            None => result is None,
            Some((at, next, s, l)) => result == Some(next as i32) && final(symbols)@ == s
                && final(lengths)@ == l && final(reader).at() == at && 0 <= next <= 100,
        },
{
    let mut average: i32 = initial;
    let mut done: usize = 0;
    let ghost whole = dense_run(
        reader.bits(),
        reader.at(),
        run as nat,
        forced as nat,
        first as nat,
        average as int,
        symbols@,
        lengths@,
    );
    while done < run
        invariant
            done <= run,
            forced <= 3,
            first + run <= 256,
            0 <= average <= 100,
            reader.wf(),
            reader.bits() == old(reader).bits(),
            dense_run(
                reader.bits(),
                reader.at(),
                (run - done) as nat,
                forced as nat,
                (first + done) as nat,
                average as int,
                symbols@,
                lengths@,
            ) == whole,
            whole == dense_run(
                old(reader).bits(),
                old(reader).at(),
                run as nat,
                forced as nat,
                first as nat,
                initial as int,
                old(symbols)@,
                old(lengths)@,
            ),
        decreases run - done,
    {
        let code: usize = match reader.read_gamma_x(forced) {
            Some(code) => code,
            None => return None,
        };
        let length: i32 = signed_delta(code) + (average + 2) / 4;
        if length < 1 || length > 11 {
            return None;
        }
        symbols.push((first + done) as u8);
        lengths.push(length as u8);
        average = length + (3 * average + 2) / 4;
        done = done + 1;
    }
    Some(average)
}

fn read_dense_lengths(reader: &mut MsbReader<'_>, forced: usize, first: usize) -> (result: Option<
    (Vec<u8>, Vec<u8>),
>)
    requires
        old(reader).wf(),
        forced <= 3,
        first < 256,
    ensures
        final(reader).wf(),
        final(reader).bits() == old(reader).bits(),
        match dense_lengths(
            old(reader).bits(),
            old(reader).at(),
            forced as nat,
            first as nat,
            32,
            seq![],
            seq![],
        ) {
            None => result is None,
            Some((symbols, lengths, at)) => result matches Some(r) && r.0@ == symbols && r.1@
                == lengths && final(reader).at() == at,
        },
{
    let mut symbols: Vec<u8> = Vec::new();
    let mut lengths: Vec<u8> = Vec::new();
    let mut symbol: usize = first;
    let mut average: i32 = 32;
    let ghost whole = dense_lengths(
        reader.bits(),
        reader.at(),
        forced as nat,
        first as nat,
        32,
        seq![],
        seq![],
    );
    loop
        invariant
            forced <= 3,
            symbol < 256,
            0 <= average <= 100,
            reader.wf(),
            reader.bits() == old(reader).bits(),
            dense_lengths(
                reader.bits(),
                reader.at(),
                forced as nat,
                symbol as nat,
                average as int,
                symbols@,
                lengths@,
            ) == whole,
            whole == dense_lengths(
                old(reader).bits(),
                old(reader).at(),
                forced as nat,
                first as nat,
                32,
                seq![],
                seq![],
            ),
        decreases reader.bits().len() - reader.at(),
    {
        let ghost before = reader.at();
        proof {
            reader.lemma_bound();
        }
        let run: usize = match reader.read_gamma_run() {
            Some(run) => run,
            None => return None,
        };
        if run > 256 - symbol {
            return None;
        }
        proof {
            lemma_dense_run_at(
                reader.bits(),
                reader.at(),
                run as nat,
                forced as nat,
                symbol as nat,
                average as int,
                symbols@,
                lengths@,
            );
        }
        average = match read_dense_run(
            reader,
            run,
            forced,
            symbol,
            average,
            &mut symbols,
            &mut lengths,
        ) {
            Some(average) => average,
            None => return None,
        };
        symbol = symbol + run;
        if symbol == 256 {
            return Some((symbols, lengths));
        }
        let gap: usize = match reader.read_gamma_run() {
            Some(gap) => gap,
            None => return None,
        };
        if gap > usize::MAX - symbol {
            return None;
        }
        symbol = symbol + gap;
        if symbol >= 256 {
            return Some((symbols, lengths));
        }
    }
}

fn read_old_lengths(reader: &mut MsbReader<'_>) -> (result: Option<(Vec<u8>, Vec<u8>)>)
    requires
        old(reader).wf(),
        old(reader).at() == 0,
    ensures
        final(reader).wf(),
        final(reader).bits() == old(reader).bits(),
        match old_lengths(old(reader).bits()) {
            None => result is None,
            Some((symbols, lengths, at)) => result matches Some(r) && r.0@ == symbols && r.1@
                == lengths && final(reader).at() == at,
        },
{
    let kind: usize = match reader.read(2) {
        Some(kind) => kind,
        None => return None,
    };
    if kind == 0 {
        let count: usize = match reader.read(8) {
            Some(count) => count,
            None => return None,
        };
        if count == 0 {
            return None;
        }
        if count == 1 {
            let symbol: usize = match reader.read(8) {
                Some(symbol) => symbol,
                None => return None,
            };
            let symbols: Vec<u8> = vec![symbol as u8];
            let lengths: Vec<u8> = vec![1];
            proof {
                assert(symbols@ =~= seq![symbol as u8]);
                assert(lengths@ =~= seq![1u8]);
            }
            return Some((symbols, lengths));
        }
        let length_bits: usize = match reader.read(3) {
            Some(length_bits) => length_bits,
            None => return None,
        };
        if length_bits > 4 {
            return None;
        }
        return read_sparse_lengths(reader, count, length_bits);
    }
    if kind != 1 {
        return None;
    }
    let ghost all = reader.bits();
    let ghost at = reader.at();
    let forced: usize = match reader.read(2) {
        Some(forced) => forced,
        None => return None,
    };
    proof {
        lemma2_to64();
        bits::lemma_bits_of_msb_value(all.subrange(at as int, (at + 2) as int));
    }
    let skip: usize = match reader.read(1) {
        Some(skip) => skip,
        None => return None,
    };
    let first: usize = if skip != 0 {
        0
    } else {
        match reader.read_gamma_run() {
            Some(gap) => gap,
            None => return None,
        }
    };
    if first >= 256 {
        return None;
    }
    match read_dense_lengths(reader, forced, first) {
        Some((symbols, lengths)) => if symbols.len() < 2 {
            None
        } else {
            Some((symbols, lengths))
        },
        None => None,
    }
}

/// Decodes a table with an old header, and counts the header's bytes.
pub fn decode_old_huffman_table(payload: &[u8]) -> (result: Option<(OldHuffmanTable, usize)>)
    requires
        8 * payload@.len() <= usize::MAX,
    ensures
        match table_of(old_lengths(bits::msb_bits(payload@))) {
            None => result is None,
            Some((entries, size)) => result matches Some(r) && r.0.entries@ == entries && r.1
                == size && size <= payload@.len(),
        },
{
    let mut reader = MsbReader::new(payload);
    match read_old_lengths(&mut reader) {
        None => None,
        Some((symbols, lengths)) => match canonical_huffman_table(&symbols, &lengths) {
            None => None,
            Some(table) => {
                let size: usize = reader.consumed_bytes();
                Some((table, size))
            },
        },
    }
}

// ---------------------------------------------------------------------------
// New tables
// ---------------------------------------------------------------------------

/// `count` numbers in unary after those of `values`.
pub open spec fn read_unaries(bits: Seq<bool>, at: nat, count: nat, values: Seq<usize>) -> Option<
    (Seq<usize>, nat),
>
    decreases count,
{
    if count == 0 {
        Some((values, at))
    } else {
        match readers::read_unary(bits, at) {
            None => None,
            Some((value, next)) => read_unaries(
                bits,
                next,
                (count - 1) as nat,
                values.push(value as usize),
            ),
        }
    }
}

/// Gives each of the first `count` values from `i` on its `forced` low bits.
pub open spec fn read_low_bits(
    bits: Seq<bool>,
    at: nat,
    values: Seq<usize>,
    i: nat,
    count: nat,
    forced: nat,
) -> Option<(Seq<usize>, nat)>
    decreases count - i,
{
    if i >= count {
        Some((values, at))
    } else {
        match readers::read_bits(bits, at, forced) {
            None => None,
            Some((low, next)) => read_low_bits(
                bits,
                next,
                values.update(i as int, (values[i as int] * pow2(forced) + low) as usize),
                i + 1,
                count,
                forced,
            ),
        }
    }
}

/// The code lengths after `lengths`, each written as its difference from a
/// running sum (in quarters).
pub open spec fn delta_lengths(
    codes: Seq<usize>,
    count: nat,
    running: int,
    lengths: Seq<u8>,
) -> Option<Seq<u8>>
    decreases count - lengths.len(),
{
    if lengths.len() >= count {
        Some(lengths)
    } else {
        let delta = unzigzag(codes[lengths.len() as int] as nat);
        let length = delta + running / 4 + 1;
        if length < 1 || length > 11 {
            None
        } else {
            delta_lengths(codes, count, running + delta, lengths.push(length as u8))
        }
    }
}

/// The rest of a list of symbol ranges: each code pair gives a range's size and
/// the gap after it, the last range takes what is left of `symbol_count`.
pub open spec fn ranges_from(
    bits: Seq<bool>,
    at: nat,
    codes: Seq<usize>,
    i: nat,
    symbol: nat,
    used: nat,
    symbol_count: nat,
    ranges: Seq<(usize, usize)>,
) -> Option<(Seq<(usize, usize)>, nat)>
    decreases codes.len() - i,
{
    if i + 1 >= codes.len() {
        if used >= symbol_count || symbol + (symbol_count - used) > 256 {
            None
        } else {
            Some((ranges.push((symbol as usize, (symbol_count - used) as usize)), at))
        }
    } else {
        let count_width = codes[i as int];
        let space_width = codes[i as int + 1];
        if count_width >= 9 || space_width >= 8 {
            None
        } else {
            match readers::read_bits(bits, at, count_width as nat) {
                None => None,
                Some((low, next)) => {
                    let count = low + pow2(count_width as nat);
                    match readers::read_bits(bits, next, (space_width + 1) as nat) {
                        None => None,
                        Some((low, next)) => {
                            let space = (low + pow2((space_width + 1) as nat) - 1) as nat;
                            if symbol + count > 256 {
                                None
                            } else {
                                ranges_from(
                                    bits,
                                    next,
                                    codes,
                                    i + 2,
                                    symbol + count + space,
                                    used + count,
                                    symbol_count,
                                    ranges.push((symbol as usize, count as usize)),
                                )
                            }
                        },
                    }
                },
            }
        }
    }
}

/// The ranges of consecutive symbols that a table uses. An odd number of codes
/// starts with that of the first symbol.
pub open spec fn symbol_ranges(
    bits: Seq<bool>,
    at: nat,
    codes: Seq<usize>,
    symbol_count: nat,
) -> Option<(Seq<(usize, usize)>, nat)> {
    if codes.len() % 2 == 0 {
        ranges_from(bits, at, codes, 0, 0, 0, symbol_count, seq![])
    } else {
        let width = codes[0];
        if width >= 8 {
            None
        } else {
            match readers::read_bits(bits, at, (width + 1) as nat) {
                None => None,
                Some((low, next)) => ranges_from(
                    bits,
                    next,
                    codes,
                    1,
                    (low + pow2((width + 1) as nat) - 1) as nat,
                    0,
                    symbol_count,
                    seq![],
                ),
            }
        }
    }
}

/// The symbols of a range.
pub open spec fn range_symbols(range: (usize, usize)) -> Seq<u8> {
    Seq::new(range.1 as nat, |i: int| (range.0 + i) as u8)
}

/// The symbols of a list of ranges.
pub open spec fn all_symbols(ranges: Seq<(usize, usize)>) -> Seq<u8>
    decreases ranges.len(),
{
    if ranges.len() == 0 {
        seq![]
    } else {
        all_symbols(ranges.drop_last()) + range_symbols(ranges.last())
    }
}

/// How many range codes a table of `symbol_count` symbols has.
pub open spec fn range_code_count(bits: Seq<bool>, at: nat, symbol_count: nat) -> Option<
    (nat, nat),
> {
    if symbol_count == 256 {
        Some((0, at))
    } else {
        let range = if symbol_count <= 257 - symbol_count {
            symbol_count
        } else {
            (257 - symbol_count) as nat
        };
        readers::read_truncated(bits, at, 2 * range)
    }
}

/// The symbols and code lengths of a new table, and where its header ends.
pub open spec fn new_lengths(bits: Seq<bool>) -> Option<(Seq<u8>, Seq<u8>, nat)> {
    match readers::read_bits(bits, 0, 2) {
        None => None,
        Some((kind, at)) => if kind != 2 {
            None
        } else {
            match readers::read_bits(bits, at, 2) {
                None => None,
                Some((forced, at)) => match readers::read_bits(bits, at, 8) {
                    None => None,
                    Some((last, at)) => new_lengths_of(bits, at, forced, last + 1),
                },
            }
        },
    }
}

/// What follows the symbol count of a new table.
pub open spec fn new_lengths_of(bits: Seq<bool>, at: nat, forced: nat, count: nat) -> Option<
    (Seq<u8>, Seq<u8>, nat),
> {
    match range_code_count(bits, at, count) {
        None => None,
        Some((extra, at)) => match read_unaries(bits, at, count + extra, seq![]) {
            None => None,
            Some((values, at)) => match read_low_bits(bits, at, values, 0, count, forced) {
                None => None,
                Some((values, at)) => match delta_lengths(values, count, 30, seq![]) {
                    None => None,
                    Some(lengths) => match symbol_ranges(
                        bits,
                        at,
                        values.subrange(count as int, values.len() as int),
                        count,
                    ) {
                        None => None,
                        Some((ranges, at)) => Some((all_symbols(ranges), lengths, at)),
                    },
                },
            },
        },
    }
}

pub proof fn lemma_read_unaries_bounds(bits: Seq<bool>, at: nat, count: nat, values: Seq<usize>)
    requires
        forall|i: int| 0 <= i < values.len() ==> #[trigger] values[i] <= 255,
    ensures
        read_unaries(bits, at, count, values) matches Some((result, next)) ==> result.len()
            == values.len() + count && (forall|i: int|
            0 <= i < result.len() ==> #[trigger] result[i] <= 255),
    decreases count,
{
    if count > 0 {
        match readers::read_unary(bits, at) {
            None => {},
            Some((value, next)) => {
                lemma_read_unaries_bounds(
                    bits,
                    next,
                    (count - 1) as nat,
                    values.push(value as usize),
                );
            },
        }
    }
}

/// Reads `count` numbers in unary.
pub fn read_unary_values(reader: &mut MsbReader<'_>, count: usize) -> (result: Option<Vec<usize>>)
    requires
        old(reader).wf(),
    ensures
        final(reader).wf(),
        final(reader).bits() == old(reader).bits(),
        match read_unaries(old(reader).bits(), old(reader).at(), count as nat, seq![]) {
            None => result is None,
            Some((values, at)) => result matches Some(r) && r@ == values && final(reader).at() == at
                && r@.len() == count && (forall|i: int|
                0 <= i < count ==> #[trigger] r@[i] <= 255),
        },
{
    let mut values: Vec<usize> = Vec::new();
    proof {
        lemma_read_unaries_bounds(reader.bits(), reader.at(), count as nat, seq![]);
    }
    let mut left: usize = count;
    while left > 0
        invariant
            left <= count,
            reader.wf(),
            reader.bits() == old(reader).bits(),
            read_unaries(reader.bits(), reader.at(), left as nat, values@) == read_unaries(
                old(reader).bits(),
                old(reader).at(),
                count as nat,
                seq![],
            ),
        decreases left,
    {
        let value: usize = match reader.read_unary() {
            Some(value) => value,
            None => return None,
        };
        values.push(value);
        left = left - 1;
    }
    Some(values)
}

fn read_low_bit_values(
    reader: &mut MsbReader<'_>,
    values: &mut Vec<usize>,
    count: usize,
    forced: usize,
) -> (result: bool)
    requires
        old(reader).wf(),
        forced <= 3,
        count <= old(values)@.len(),
        forall|i: int| 0 <= i < old(values)@.len() ==> #[trigger] old(values)@[i] <= 255,
    ensures
        final(reader).wf(),
        final(reader).bits() == old(reader).bits(),
        match read_low_bits(
            old(reader).bits(),
            old(reader).at(),
            old(values)@,
            0,
            count as nat,
            forced as nat,
        ) {
            None => !result,
            Some((new_values, at)) => result && final(values)@ == new_values && final(reader).at()
                == at && new_values.len() == old(values)@.len() && (forall|i: int|
                0 <= i < new_values.len() ==> #[trigger] new_values[i] <= 0xffff),
        },
{
    let mut i: usize = 0;
    while i < count
        invariant
            i <= count <= values@.len(),
            forced <= 3,
            reader.wf(),
            reader.bits() == old(reader).bits(),
            values@.len() == old(values)@.len(),
            forall|k: int| i <= k < values@.len() ==> #[trigger] values@[k] <= 255,
            forall|k: int| 0 <= k < values@.len() ==> #[trigger] values@[k] <= 0xffff,
            read_low_bits(
                reader.bits(),
                reader.at(),
                values@,
                i as nat,
                count as nat,
                forced as nat,
            ) == read_low_bits(
                old(reader).bits(),
                old(reader).at(),
                old(values)@,
                0,
                count as nat,
                forced as nat,
            ),
        decreases count - i,
    {
        let ghost all = reader.bits();
        let ghost at = reader.at();
        let low: usize = match reader.read(forced) {
            Some(low) => low,
            None => return false,
        };
        let size: usize = power_of_two(forced);
        let high: usize = values[i];
        proof {
            lemma2_to64();
            bits::lemma_bits_of_msb_value(all.subrange(at as int, (at + forced) as int));
            if forced < 3 {
                lemma_pow2_strictly_increases(forced as nat, 3);
            }
            assert(0 <= high * size <= 255 * 8) by (nonlinear_arith)
                requires
                    0 <= high <= 255,
                    0 <= size <= 8,
            ;
        }
        values.set(i, high * size + low);
        i = i + 1;
    }
    true
}

fn read_delta_lengths(codes: &[usize], count: usize) -> (result: Option<Vec<u8>>)
    requires
        count <= codes@.len(),
        forall|i: int| 0 <= i < codes@.len() ==> #[trigger] codes@[i] <= 0xffff,
    ensures
        match delta_lengths(codes@, count as nat, 30, seq![]) {
            None => result is None,
            Some(lengths) => result matches Some(r) && r@ == lengths,
        },
{
    let mut lengths: Vec<u8> = Vec::new();
    let mut running: i32 = 30;
    while lengths.len() < count
        invariant
            lengths@.len() <= count <= codes@.len(),
            forall|i: int| 0 <= i < codes@.len() ==> #[trigger] codes@[i] <= 0xffff,
            0 <= running <= 100,
            delta_lengths(codes@, count as nat, running as int, lengths@) == delta_lengths(
                codes@,
                count as nat,
                30,
                seq![],
            ),
        decreases count - lengths@.len(),
    {
        let delta: i32 = signed_delta(codes[lengths.len()]);
        let length: i32 = delta + running / 4 + 1;
        if length < 1 || length > 11 {
            return None;
        }
        lengths.push(length as u8);
        running = running + delta;
    }
    Some(lengths)
}

/// Reads the ranges of symbols that a table uses.
pub fn decode_symbol_ranges(
    reader: &mut MsbReader<'_>,
    symbol_count: usize,
    codes: &[usize],
) -> (result: Option<Vec<(usize, usize)>>)
    requires
        old(reader).wf(),
        symbol_count <= 256,
    ensures
        final(reader).wf(),
        final(reader).bits() == old(reader).bits(),
        match symbol_ranges(old(reader).bits(), old(reader).at(), codes@, symbol_count as nat) {
            None => result is None,
            Some((ranges, at)) => result matches Some(r) && r@ == ranges && final(reader).at() == at,
        },
{
    let mut symbol: usize = 0;
    let mut i: usize = 0;
    proof {
        lemma2_to64();
    }
    if codes.len() % 2 == 1 {
        let width: usize = codes[0];
        if width >= 8 {
            return None;
        }
        let ghost all = reader.bits();
        let ghost at = reader.at();
        let low: usize = match reader.read(width + 1) {
            Some(low) => low,
            None => return None,
        };
        proof {
            bits::lemma_bits_of_msb_value(all.subrange(at as int, (at + width + 1) as int));
            if width < 7 {
                lemma_pow2_strictly_increases((width + 1) as nat, 8);
            }
        }
        symbol = low + power_of_two(width + 1) - 1;
        i = 1;
    }
    let mut used: usize = 0;
    let mut ranges: Vec<(usize, usize)> = Vec::new();
    let ghost whole = ranges_from(
        reader.bits(),
        reader.at(),
        codes@,
        i as nat,
        symbol as nat,
        0,
        symbol_count as nat,
        seq![],
    );
    while codes.len() - i > 1
        invariant
            i <= codes@.len(),
            symbol <= 1000,
            used <= symbol,
            used <= 256,
            symbol_count <= 256,
            reader.wf(),
            reader.bits() == old(reader).bits(),
            whole == symbol_ranges(
                old(reader).bits(),
                old(reader).at(),
                codes@,
                symbol_count as nat,
            ),
            ranges_from(
                reader.bits(),
                reader.at(),
                codes@,
                i as nat,
                symbol as nat,
                used as nat,
                symbol_count as nat,
                ranges@,
            ) == whole,
        decreases codes@.len() - i,
    {
        let count_width: usize = codes[i];
        let space_width: usize = codes[i + 1];
        if count_width >= 9 || space_width >= 8 {
            return None;
        }
        let ghost all = reader.bits();
        let ghost at = reader.at();
        let low: usize = match reader.read(count_width) {
            Some(low) => low,
            None => return None,
        };
        let ghost next = reader.at();
        let high: usize = match reader.read(space_width + 1) {
            Some(high) => high,
            None => return None,
        };
        proof {
            lemma2_to64();
            bits::lemma_bits_of_msb_value(all.subrange(at as int, (at + count_width) as int));
            bits::lemma_bits_of_msb_value(
                all.subrange(next as int, (next + space_width + 1) as int),
            );
            if count_width < 8 {
                lemma_pow2_strictly_increases(count_width as nat, 8);
            }
            if space_width < 7 {
                lemma_pow2_strictly_increases((space_width + 1) as nat, 8);
            }
        }
        let count: usize = low + power_of_two(count_width);
        let space: usize = high + power_of_two(space_width + 1) - 1;
        if symbol + count > 256 {
            return None;
        }
        ranges.push((symbol, count));
        used = used + count;
        symbol = symbol + count + space;
        i = i + 2;
    }
    if used >= symbol_count || symbol + (symbol_count - used) > 256 {
        return None;
    }
    ranges.push((symbol, symbol_count - used));
    Some(ranges)
}

/// Lists the symbols of ranges.
pub fn expand_ranges(ranges: &[(usize, usize)]) -> (result: Vec<u8>)
    requires
        forall|i: int| 0 <= i < ranges@.len() ==> (#[trigger] ranges@[i]).0 + ranges@[i].1 <= 256,
    ensures
        result@ == all_symbols(ranges@),
{
    let mut symbols: Vec<u8> = Vec::new();
    let mut i: usize = 0;
    assert(ranges@.subrange(0, 0) =~= Seq::<(usize, usize)>::empty());
    while i < ranges.len()
        invariant
            i <= ranges@.len(),
            forall|k: int|
                0 <= k < ranges@.len() ==> (#[trigger] ranges@[k]).0 + ranges@[k].1 <= 256,
            symbols@ == all_symbols(ranges@.subrange(0, i as int)),
        decreases ranges@.len() - i,
    {
        let start: usize = ranges[i].0;
        let count: usize = ranges[i].1;
        let ghost before = symbols@;
        let mut k: usize = 0;
        assert(ranges@[i as int].0 + ranges@[i as int].1 <= 256);
        assert(symbols@ =~= before + range_symbols((start, count)).subrange(0, 0));
        while k < count
            invariant
                k <= count,
                start + count <= 256,
                symbols@ == before + range_symbols((start, count)).subrange(0, k as int),
            decreases count - k,
        {
            symbols.push((start + k) as u8);
            k = k + 1;
            assert(symbols@ =~= before + range_symbols((start, count)).subrange(0, k as int));
        }
        proof {
            assert(ranges@.subrange(0, i + 1).drop_last() =~= ranges@.subrange(0, i as int));
            assert(range_symbols((start, count)).subrange(0, count as int) =~= range_symbols(
                (start, count),
            ));
        }
        i = i + 1;
    }
    assert(ranges@.subrange(0, ranges@.len() as int) =~= ranges@);
    symbols
}

pub proof fn lemma_ranges_bounds(
    bits: Seq<bool>,
    at: nat,
    codes: Seq<usize>,
    i: nat,
    symbol: nat,
    used: nat,
    symbol_count: nat,
    ranges: Seq<(usize, usize)>,
)
    requires
        forall|k: int| 0 <= k < ranges.len() ==> (#[trigger] ranges[k]).0 + ranges[k].1 <= 256,
        all_symbols(ranges).len() == used,
    ensures
        ranges_from(bits, at, codes, i, symbol, used, symbol_count, ranges) matches Some(
            (result, next),
        ) ==> all_symbols(result).len() == symbol_count && (forall|k: int|
            0 <= k < result.len() ==> (#[trigger] result[k]).0 + result[k].1 <= 256),
    decreases codes.len() - i,
{
    lemma2_to64();
    if i + 1 >= codes.len() {
        let last = (symbol as usize, (symbol_count - used) as usize);
        assert(ranges.push(last).drop_last() =~= ranges);
    } else {
        let count_width = codes[i as int];
        let space_width = codes[i as int + 1];
        if count_width < 9 && space_width < 8 {
            match readers::read_bits(bits, at, count_width as nat) {
                None => {},
                Some((low, next)) => {
                    let count = low + pow2(count_width as nat);
                    match readers::read_bits(bits, next, (space_width + 1) as nat) {
                        None => {},
                        Some((low, next)) => {
                            let space = (low + pow2((space_width + 1) as nat) - 1) as nat;
                            lemma_pow2_pos((space_width + 1) as nat);
                            let range = (symbol as usize, count as usize);
                            assert(ranges.push(range).drop_last() =~= ranges);
                            if symbol + count <= 256 {
                                lemma_ranges_bounds(
                                    bits,
                                    next,
                                    codes,
                                    i + 2,
                                    symbol + count + space,
                                    used + count,
                                    symbol_count,
                                    ranges.push(range),
                                );
                            }
                        },
                    }
                },
            }
        }
    }
}

pub proof fn lemma_symbol_ranges_bounds(
    bits: Seq<bool>,
    at: nat,
    codes: Seq<usize>,
    symbol_count: nat,
)
    ensures
        symbol_ranges(bits, at, codes, symbol_count) matches Some((result, next)) ==> all_symbols(
            result,
        ).len() == symbol_count && (forall|k: int|
            0 <= k < result.len() ==> (#[trigger] result[k]).0 + result[k].1 <= 256),
{
    if codes.len() % 2 == 0 {
        lemma_ranges_bounds(bits, at, codes, 0, 0, 0, symbol_count, seq![]);
    } else {
        let width = codes[0];
        lemma_pow2_pos((width + 1) as nat);
        if width < 8 {
            match readers::read_bits(bits, at, (width + 1) as nat) {
                None => {},
                Some((low, next)) => lemma_ranges_bounds(
                    bits,
                    next,
                    codes,
                    1,
                    (low + pow2((width + 1) as nat) - 1) as nat,
                    0,
                    symbol_count,
                    seq![],
                ),
            }
        }
    }
}

/// Reads how many range codes a table has.
pub fn tans_fluff(reader: &mut MsbReader<'_>, symbol_count: usize) -> (result: Option<usize>)
    requires
        old(reader).wf(),
        1 <= symbol_count <= 256,
    ensures
        final(reader).wf(),
        final(reader).bits() == old(reader).bits(),
        match range_code_count(old(reader).bits(), old(reader).at(), symbol_count as nat) {
            None => result is None,
            Some((count, at)) => result == Some(count as usize) && count <= 512 && final(reader).at()
                == at,
        },
{
    if symbol_count == 256 {
        return Some(0);
    }
    let range: usize = if symbol_count <= 257 - symbol_count {
        symbol_count
    } else {
        257 - symbol_count
    };
    reader.read_truncated(range * 2)
}

fn read_new_lengths(reader: &mut MsbReader<'_>) -> (result: Option<(Vec<u8>, Vec<u8>)>)
    requires
        old(reader).wf(),
        old(reader).at() == 0,
    ensures
        final(reader).wf(),
        final(reader).bits() == old(reader).bits(),
        match new_lengths(old(reader).bits()) {
            None => result is None,
            Some((symbols, lengths, at)) => result matches Some(r) && r.0@ == symbols && r.1@
                == lengths && final(reader).at() == at,
        },
{
    let ghost all = reader.bits();
    let kind: usize = match reader.read(2) {
        Some(kind) => kind,
        None => return None,
    };
    if kind != 2 {
        return None;
    }
    let forced: usize = match reader.read(2) {
        Some(forced) => forced,
        None => return None,
    };
    let last: usize = match reader.read(8) {
        Some(last) => last,
        None => return None,
    };
    proof {
        lemma2_to64();
        bits::lemma_bits_of_msb_value(all.subrange(2, 4));
        bits::lemma_bits_of_msb_value(all.subrange(4, 12));
    }
    let count: usize = last + 1;
    let extra: usize = match tans_fluff(reader, count) {
        Some(extra) => extra,
        None => return None,
    };
    let mut values: Vec<usize> = match read_unary_values(reader, count + extra) {
        Some(values) => values,
        None => return None,
    };
    if !read_low_bit_values(reader, &mut values, count, forced) {
        return None;
    }
    let lengths: Vec<u8> = match read_delta_lengths(&values, count) {
        Some(lengths) => lengths,
        None => return None,
    };
    let codes: &[usize] = vstd::slice::slice_subrange(&values, count, values.len());
    proof {
        lemma_symbol_ranges_bounds(reader.bits(), reader.at(), codes@, count as nat);
    }
    let ranges: Vec<(usize, usize)> = match decode_symbol_ranges(reader, count, codes) {
        Some(ranges) => ranges,
        None => return None,
    };
    Some((expand_ranges(&ranges), lengths))
}

/// Decodes a table with a new header, and counts the header's bytes.
pub fn decode_new_huffman_table(payload: &[u8]) -> (result: Option<(OldHuffmanTable, usize)>)
    requires
        8 * payload@.len() <= usize::MAX,
    ensures
        match table_of(new_lengths(bits::msb_bits(payload@))) {
            None => result is None,
            Some((entries, size)) => result matches Some(r) && r.0.entries@ == entries && r.1
                == size && size <= payload@.len(),
        },
{
    let mut reader = MsbReader::new(payload);
    match read_new_lengths(&mut reader) {
        None => None,
        Some((symbols, lengths)) => match canonical_huffman_table(&symbols, &lengths) {
            None => None,
            Some(table) => {
                let size: usize = reader.consumed_bytes();
                Some((table, size))
            },
        },
    }
}

/// The table of a payload, by an old header or else by a new one.
pub open spec fn huffman_table(payload: Seq<u8>) -> Option<(Seq<(u16, u8, u8)>, nat)> {
    match table_of(old_lengths(bits::msb_bits(payload))) {
        Some(table) => Some(table),
        None => table_of(new_lengths(bits::msb_bits(payload))),
    }
}

/// Decodes the table at the start of a payload, and counts its header's bytes.
pub fn decode_huffman_table(payload: &[u8], offset: usize) -> (result: Result<
    (OldHuffmanTable, usize),
    KrakenError,
>)
    requires
        8 * payload@.len() <= usize::MAX,
    ensures
        match huffman_table(payload@) {
            None => result == Err::<(OldHuffmanTable, usize), KrakenError>(
                KrakenError::UnsupportedQuantum { offset },
            ),
            Some((entries, size)) => result matches Ok(r) && r.0.entries@ == entries && r.1 == size
                && size <= payload@.len(),
        },
{
    match decode_old_huffman_table(payload) {
        Some(table) => return Ok(table),
        None => {},
    }
    match decode_new_huffman_table(payload) {
        Some(table) => Ok(table),
        None => Err(KrakenError::UnsupportedQuantum { offset }),
    }
}

} // verus!
