//! Table-based asymmetric numeral systems: tables and what they decode.

use super::bits;
use super::readers;
use super::readers::{power_of_two, MsbReader, TansPairedBits};
use super::tables;
use super::tables::{decode_symbol_ranges, expand_ranges, read_unary_values, tans_fluff};
use super::writers;
use super::writers::ilog2;
use super::KrakenError;
use crate::sequence;
use crate::sequence::{part, sort_keys};
use vstd::arithmetic::power2::{
    lemma2_to64, lemma_pow2_pos, lemma_pow2_strictly_increases, lemma_pow2_unfold, pow2,
};
use vstd::prelude::*;

verus! {

// ---------------------------------------------------------------------------
// Tables
// ---------------------------------------------------------------------------

/// One state: its symbol, and the states that may follow it.
#[derive(Clone, Copy, Debug, PartialEq, Eq, Structural)]
pub struct TansEntry {
    pub mask: usize,
    pub bits: usize,
    pub symbol: u8,
    pub base: usize,
}

/// The state of `symbol` that stands for the number `x` between the symbol's
/// weight and twice its weight.
pub open spec fn tans_entry(symbol: u8, x: nat, table_bits: nat) -> TansEntry {
    let bits = (table_bits - writers::log2(x)) as nat;
    TansEntry {
        mask: (pow2(bits) - 1) as usize,
        bits: bits as usize,
        symbol,
        base: ((x * pow2(bits)) % pow2(table_bits)) as usize,
    }
}

/// A state that no symbol took.
pub open spec fn free_entry() -> TansEntry {
    TansEntry { mask: 0, bits: 0, symbol: 0, base: 0 }
}

/// The sum of all weights.
pub open spec fn total_weight(weights: Seq<(u8, usize)>) -> nat
    decreases weights.len(),
{
    if weights.len() == 0 {
        0
    } else {
        total_weight(weights.drop_last()) + weights.last().1 as nat
    }
}

/// How many weights are one.
pub open spec fn single_count(weights: Seq<(u8, usize)>) -> nat
    decreases weights.len(),
{
    if weights.len() == 0 {
        0
    } else {
        single_count(weights.drop_last()) + if weights.last().1 == 1 {
            1nat
        } else {
            0nat
        }
    }
}

/// Of `n` things dealt out to four places in turn, those that place `p` gets.
pub open spec fn dealt(n: nat, p: int) -> nat {
    ((n + 3 - p) / 4) as nat
}

/// The first state of quarter `p` of `allocated` states.
pub open spec fn quarter_start(allocated: nat, p: int) -> nat
    decreases p,
{
    if p <= 0 {
        0
    } else {
        quarter_start(allocated, p - 1) + dealt(allocated, p - 1)
    }
}

/// Puts the states of `x`, `x + 1` and so on at `at`, `n` in all.
pub open spec fn put_run(
    table: Seq<TansEntry>,
    at: nat,
    n: nat,
    symbol: u8,
    x: nat,
    table_bits: nat,
) -> Seq<TansEntry>
    decreases n,
{
    if n == 0 {
        table
    } else {
        put_run(
            table.update(at as int, tans_entry(symbol, x, table_bits)),
            at + 1,
            (n - 1) as nat,
            symbol,
            x + 1,
            table_bits,
        )
    }
}

/// Puts the states of a symbol from quarter `p` on; `sum` states went before.
pub open spec fn put_quarters(
    table: Seq<TansEntry>,
    p: int,
    allocated: nat,
    sum: nat,
    symbol: u8,
    weight: nat,
    x: nat,
    table_bits: nat,
) -> Seq<TansEntry>
    decreases 4 - p,
{
    if p >= 4 {
        table
    } else {
        let n = (dealt(sum + weight, p) - dealt(sum, p)) as nat;
        put_quarters(
            put_run(table, quarter_start(allocated, p) + dealt(sum, p), n, symbol, x, table_bits),
            p + 1,
            allocated,
            sum,
            symbol,
            weight,
            x + n,
            table_bits,
        )
    }
}

/// Puts the states of the first `i` weights into an empty table. Symbols of
/// weight one come last, in order; the others are dealt out over the quarters.
pub open spec fn put_weights(
    weights: Seq<(u8, usize)>,
    i: nat,
    allocated: nat,
    table_bits: nat,
) -> Seq<TansEntry>
    decreases i,
{
    if i == 0 {
        Seq::new(pow2(table_bits), |k: int| free_entry())
    } else {
        let before = put_weights(weights, (i - 1) as nat, allocated, table_bits);
        let symbol = weights[i - 1].0;
        let weight = weights[i - 1].1 as nat;
        let prefix = weights.subrange(0, i - 1);
        if weight == 0 {
            before
        } else if weight == 1 {
            before.update(
                (allocated + single_count(prefix)) as int,
                tans_entry(symbol, 1, table_bits),
            )
        } else {
            put_quarters(
                before,
                0,
                allocated,
                (total_weight(prefix) - single_count(prefix)) as nat,
                symbol,
                weight,
                weight,
                table_bits,
            )
        }
    }
}

/// The table of weights that sum up to its size.
pub open spec fn tans_table(weights: Seq<(u8, usize)>, table_bits: nat) -> Option<Seq<TansEntry>> {
    if total_weight(weights) != pow2(table_bits) {
        None
    } else {
        Some(
            put_weights(
                weights,
                weights.len(),
                (pow2(table_bits) - single_count(weights)) as nat,
                table_bits,
            ),
        )
    }
}

proof fn lemma_sums_step(weights: Seq<(u8, usize)>, i: int)
    requires
        0 <= i < weights.len(),
    ensures
        total_weight(weights.subrange(0, i + 1)) == total_weight(weights.subrange(0, i))
            + weights[i].1,
        single_count(weights.subrange(0, i + 1)) == single_count(weights.subrange(0, i)) + if weights[i].1
            == 1 {
            1nat
        } else {
            0nat
        },
{
    assert(weights.subrange(0, i + 1).drop_last() =~= weights.subrange(0, i));
}

proof fn lemma_sums_monotone(weights: Seq<(u8, usize)>, i: int, j: int)
    requires
        0 <= i <= j <= weights.len(),
    ensures
        total_weight(weights.subrange(0, i)) <= total_weight(weights.subrange(0, j)),
        single_count(weights.subrange(0, i)) <= single_count(weights.subrange(0, j)),
        total_weight(weights.subrange(0, i)) - single_count(weights.subrange(0, i)) <= total_weight(
            weights.subrange(0, j),
        ) - single_count(weights.subrange(0, j)),
        single_count(weights.subrange(0, i)) <= total_weight(weights.subrange(0, i)),
    decreases j,
{
    if j > i {
        lemma_sums_monotone(weights, i, j - 1);
        lemma_sums_step(weights, j - 1);
    } else if i > 0 {
        lemma_sums_monotone(weights, i - 1, i - 1);
        lemma_sums_step(weights, i - 1);
    } else {
        assert(weights.subrange(0, 0) =~= Seq::<(u8, usize)>::empty());
    }
}

fn make_entry(symbol: u8, x: usize, table_bits: usize, table_size: usize) -> (result: TansEntry)
    requires
        8 <= table_bits <= 11,
        table_size == pow2(table_bits as nat),
        1 <= x < 2 * table_size,
    ensures
        result == tans_entry(symbol, x as nat, table_bits as nat),
{
    let log: usize = ilog2(x) as usize;
    proof {
        writers::lemma_log2(x as nat);
        lemma2_to64();
        lemma_pow2_unfold((table_bits + 1) as nat);
        if log > table_bits {
            if log > table_bits + 1 {
                lemma_pow2_strictly_increases((table_bits + 1) as nat, log as nat);
            }
            assert(false);
        }
        if table_bits < 11 {
            lemma_pow2_strictly_increases(table_bits as nat, 11);
        }
    }
    let bits: usize = table_bits - log;
    let size: usize = power_of_two(bits);
    proof {
        if bits < 11 {
            lemma_pow2_strictly_increases(bits as nat, 11);
        }
        assert(0 <= x * size <= 4096 * 2048) by (nonlinear_arith)
            requires
                0 <= x <= 4096,
                0 <= size <= 2048,
        ;
    }
    TansEntry { mask: size - 1, bits, symbol, base: (x * size) % table_size }
}

/// Builds the table of weights that sum up to its size.
pub fn build_tans_table(weights: &[(u8, usize)], table_bits: usize) -> (result: Option<
    Vec<TansEntry>,
>)
    requires
        8 <= table_bits <= 11,
    ensures
        match tans_table(weights@, table_bits as nat) {
            None => result is None,
            Some(table) => result matches Some(r) && r@ == table && table.len() == pow2(
                table_bits as nat,
            ),
        },
{
    let table_size: usize = power_of_two(table_bits);
    proof {
        lemma2_to64();
        if table_bits < 11 {
            lemma_pow2_strictly_increases(table_bits as nat, 11);
        }
        assert(weights@.subrange(0, 0) =~= Seq::<(u8, usize)>::empty());
        assert(weights@.subrange(0, weights@.len() as int) =~= weights@);
    }
    let mut total: usize = 0;
    let mut singles: usize = 0;
    let mut i: usize = 0;
    while i < weights.len()
        invariant
            i <= weights@.len(),
            table_size == pow2(table_bits as nat),
            weights@.subrange(0, weights@.len() as int) == weights@,
            total == total_weight(weights@.subrange(0, i as int)),
            singles == single_count(weights@.subrange(0, i as int)),
            singles <= total <= table_size,
        decreases weights@.len() - i,
    {
        let weight: usize = weights[i].1;
        proof {
            lemma_sums_step(weights@, i as int);
            lemma_sums_monotone(weights@, i + 1, weights@.len() as int);
        }
        if weight > table_size - total {
            return None;
        }
        total = total + weight;
        if weight == 1 {
            singles = singles + 1;
        }
        i = i + 1;
    }
    if total != table_size {
        return None;
    }
    let allocated: usize = table_size - singles;
    let mut table: Vec<TansEntry> = Vec::new();
    while table.len() < table_size
        invariant
            table@.len() <= table_size,
            forall|k: int| 0 <= k < table@.len() ==> table@[k] == free_entry(),
        decreases table_size - table@.len(),
    {
        table.push(TansEntry { mask: 0, bits: 0, symbol: 0, base: 0 });
    }
    assert(table@ =~= put_weights(weights@, 0, allocated as nat, table_bits as nat));
    let mut sum: usize = 0;
    let mut single: usize = 0;
    let mut i: usize = 0;
    while i < weights.len()
        invariant
            i <= weights@.len(),
            8 <= table_bits <= 11,
            table_size == pow2(table_bits as nat),
            table_size <= 2048,
            weights@.subrange(0, weights@.len() as int) == weights@,
            total_weight(weights@) == table_size,
            allocated == table_size - single_count(weights@),
            single_count(weights@) <= table_size,
            single == single_count(weights@.subrange(0, i as int)),
            sum == total_weight(weights@.subrange(0, i as int)) - single,
            sum <= allocated,
            single <= table_size - allocated,
            table@.len() == table_size,
            table@ == put_weights(weights@, i as nat, allocated as nat, table_bits as nat),
        decreases weights@.len() - i,
    {
        let symbol: u8 = weights[i].0;
        let weight: usize = weights[i].1;
        proof {
            lemma_sums_step(weights@, i as int);
            lemma_sums_monotone(weights@, i + 1, weights@.len() as int);
        }
        if weight == 1 {
            let entry: TansEntry = make_entry(symbol, 1, table_bits, table_size);
            table.set(allocated + single, entry);
            single = single + 1;
        } else if weight > 1 {
            put_symbol(&mut table, allocated, sum, symbol, weight, table_bits, table_size);
            sum = sum + weight;
        }
        i = i + 1;
    }
    Some(table)
}

proof fn lemma_dealt(n: nat)
    ensures
        n + 3 == 4 * ((n + 3) / 4) + (n + 3) % 4,
        (n + 3) / 4 + (n + 2) / 4 + (n + 1) / 4 + n / 4 == n,
{
    let q = n / 4;
    let r = n % 4;
    assert(r == 0 || r == 1 || r == 2 || r == 3);
}

proof fn lemma_quarter_bounds(allocated: nat, sum: nat, weight: nat)
    requires
        sum + weight <= allocated,
    ensures
        ({
            let start1 = (allocated + 3) / 4;
            let start2 = start1 + (allocated + 2) / 4;
            let start3 = start2 + (allocated + 1) / 4;
            let n0 = (sum + weight + 3) / 4 - (sum + 3) / 4;
            let n1 = (sum + weight + 2) / 4 - (sum + 2) / 4;
            let n2 = (sum + weight + 1) / 4 - (sum + 1) / 4;
            let n3 = (sum + weight) / 4 - sum / 4;
            &&& n0 >= 0 && n1 >= 0 && n2 >= 0 && n3 >= 0
            &&& n0 + n1 + n2 + n3 == weight
            &&& (sum + 3) / 4 + n0 <= allocated
            &&& start1 + (sum + 2) / 4 + n1 <= allocated
            &&& start2 + (sum + 1) / 4 + n2 <= allocated
            &&& start3 + sum / 4 + n3 <= allocated
        }),
{
    lemma_dealt(allocated);
    lemma_dealt(sum);
    lemma_dealt(sum + weight);
}

proof fn lemma_put_quarters(
    table: Seq<TansEntry>,
    allocated: nat,
    sum: nat,
    symbol: u8,
    weight: nat,
    table_bits: nat,
)
    ensures
        ({
            let start1 = (allocated + 3) / 4;
            let start2 = start1 + (allocated + 2) / 4;
            let start3 = start2 + (allocated + 1) / 4;
            let n0 = ((sum + weight + 3) / 4 - (sum + 3) / 4) as nat;
            let n1 = ((sum + weight + 2) / 4 - (sum + 2) / 4) as nat;
            let n2 = ((sum + weight + 1) / 4 - (sum + 1) / 4) as nat;
            let n3 = ((sum + weight) / 4 - sum / 4) as nat;
            let t0 = put_run(table, (sum + 3) / 4, n0, symbol, weight, table_bits);
            let t1 = put_run(t0, start1 + (sum + 2) / 4, n1, symbol, weight + n0, table_bits);
            let t2 = put_run(t1, start2 + (sum + 1) / 4, n2, symbol, weight + n0 + n1, table_bits);
            let t3 = put_run(
                t2,
                start3 + sum / 4,
                n3,
                symbol,
                weight + n0 + n1 + n2,
                table_bits,
            );
            t3 == put_quarters(table, 0, allocated, sum, symbol, weight, weight, table_bits)
        }),
{
    reveal_with_fuel(quarter_start, 5);
    reveal_with_fuel(put_quarters, 5);
}

#[verifier::spinoff_prover]
#[verifier::rlimit(50)]
fn put_symbol(
    table: &mut Vec<TansEntry>,
    allocated: usize,
    sum: usize,
    symbol: u8,
    weight: usize,
    table_bits: usize,
    table_size: usize,
)
    requires
        8 <= table_bits <= 11,
        table_size == pow2(table_bits as nat),
        old(table)@.len() == table_size,
        table_size <= 2048,
        sum + weight <= allocated <= table_size,
        weight >= 2,
    ensures
        final(table)@ == put_quarters(
            old(table)@,
            0,
            allocated as nat,
            sum as nat,
            symbol,
            weight as nat,
            weight as nat,
            table_bits as nat,
        ),
        final(table)@.len() == table_size,
{
    let start1: usize = (allocated + 3) / 4;
    let start2: usize = start1 + (allocated + 2) / 4;
    let start3: usize = start2 + (allocated + 1) / 4;
    let n0: usize = (sum + weight + 3) / 4 - (sum + 3) / 4;
    let n1: usize = (sum + weight + 2) / 4 - (sum + 2) / 4;
    let n2: usize = (sum + weight + 1) / 4 - (sum + 1) / 4;
    let n3: usize = (sum + weight) / 4 - sum / 4;
    proof {
        lemma_quarter_bounds(allocated as nat, sum as nat, weight as nat);
        lemma_put_quarters(
            table@,
            allocated as nat,
            sum as nat,
            symbol,
            weight as nat,
            table_bits as nat,
        );
    }
    put_entries(table, (sum + 3) / 4, n0, symbol, weight, table_bits, table_size);
    put_entries(table, start1 + (sum + 2) / 4, n1, symbol, weight + n0, table_bits, table_size);
    put_entries(
        table,
        start2 + (sum + 1) / 4,
        n2,
        symbol,
        weight + n0 + n1,
        table_bits,
        table_size,
    );
    put_entries(
        table,
        start3 + sum / 4,
        n3,
        symbol,
        weight + n0 + n1 + n2,
        table_bits,
        table_size,
    );
}

fn put_entries(
    table: &mut Vec<TansEntry>,
    at: usize,
    count: usize,
    symbol: u8,
    first: usize,
    table_bits: usize,
    table_size: usize,
)
    requires
        8 <= table_bits <= 11,
        table_size == pow2(table_bits as nat),
        old(table)@.len() == table_size,
        table_size <= 2048,
        at + count <= table_size,
        1 <= first,
        first + count <= 2 * table_size,
    ensures
        final(table)@ == put_run(
            old(table)@,
            at as nat,
            count as nat,
            symbol,
            first as nat,
            table_bits as nat,
        ),
        final(table)@.len() == table_size,
{
    let mut k: usize = 0;
    while k < count
        invariant
            k <= count,
            8 <= table_bits <= 11,
            table_size == pow2(table_bits as nat),
            table@.len() == table_size,
            table_size <= 2048,
            at + count <= table_size,
            1 <= first,
            first + count <= 2 * table_size,
            put_run(
                table@,
                (at + k) as nat,
                (count - k) as nat,
                symbol,
                (first + k) as nat,
                table_bits as nat,
            ) == put_run(
                old(table)@,
                at as nat,
                count as nat,
                symbol,
                first as nat,
                table_bits as nat,
            ),
        decreases count - k,
    {
        let entry: TansEntry = make_entry(symbol, first + k, table_bits, table_size);
        table.set(at + k, entry);
        k = k + 1;
    }
}

// ---------------------------------------------------------------------------
// Weights
// ---------------------------------------------------------------------------

/// Symbols and weights as keys that sort by symbol.
pub open spec fn weight_keys(weights: Seq<(u8, usize)>) -> Seq<u64> {
    Seq::new(weights.len(), |i: int| (weights[i].0 * 0x1_0000_0000 + weights[i].1) as u64)
}

/// The symbols and weights of keys.
pub open spec fn keyed_weights(keys: Seq<u64>) -> Seq<(u8, usize)> {
    Seq::new(
        keys.len(),
        |i: int| ((keys[i] / 0x1_0000_0000) as u8, (keys[i] % 0x1_0000_0000) as usize),
    )
}

/// The weights in the order of their symbols.
pub open spec fn by_symbol(weights: Seq<(u8, usize)>) -> Seq<(u8, usize)> {
    keyed_weights(sequence::sorted(weight_keys(weights)))
}

/// A symbol that has a weight already.
pub open spec fn has_weight(weights: Seq<(u8, usize)>, symbol: u8) -> bool {
    exists|i: int| 0 <= i < weights.len() && (#[trigger] weights[i]).0 == symbol
}

/// The weight of the last symbol, or zero.
pub open spec fn last_weight(weights: Seq<(u8, usize)>) -> nat {
    if weights.len() == 0 {
        0
    } else {
        weights.last().1 as nat
    }
}

/// `count` symbols with ascending weights after those of `weights`, and one
/// symbol that takes the rest of the table.
pub open spec fn sparse_weights(
    bits: Seq<bool>,
    at: nat,
    count: nat,
    delta_bits: nat,
    table_size: nat,
    weights: Seq<(u8, usize)>,
) -> Option<(Seq<(u8, usize)>, nat)>
    decreases count,
{
    match readers::read_bits(bits, at, 8) {
        None => None,
        Some((symbol, at)) => {
            let weight = last_weight(weights);
            let total = total_weight(weights);
            if has_weight(weights, symbol as u8) {
                None
            } else if count == 0 {
                let rest = table_size - total;
                if rest <= 1 || rest < weight {
                    None
                } else {
                    Some((by_symbol(weights.push((symbol as u8, rest as usize))), at))
                }
            } else {
                match readers::read_bits(bits, at, delta_bits) {
                    None => None,
                    Some((delta, at)) => if weight + delta == 0 || total + weight + delta
                        >= table_size {
                        None
                    } else {
                        sparse_weights(
                            bits,
                            at,
                            (count - 1) as nat,
                            delta_bits,
                            table_size,
                            weights.push((symbol as u8, (weight + delta) as usize)),
                        )
                    },
                }
            }
        },
    }
}

/// The weights of `symbols` after those of `weights`; a weight near a running
/// average (in quarters) is written as its difference from it.
pub open spec fn dense_weights(
    bits: Seq<bool>,
    at: nat,
    symbols: Seq<u8>,
    rice: Seq<usize>,
    base_bits: nat,
    average: int,
    weights: Seq<(u8, usize)>,
) -> Option<(Seq<(u8, usize)>, nat)>
    decreases symbols.len() - weights.len(),
{
    if weights.len() >= symbols.len() {
        Some((weights, at))
    } else {
        let extra_bits = base_bits + rice[weights.len() as int];
        if extra_bits > 15 {
            None
        } else {
            match readers::read_bits(bits, at, extra_bits as nat) {
                None => None,
                Some((low, at)) => {
                    let code = (low + pow2(extra_bits as nat) - pow2(base_bits)) as nat;
                    let quarter = average / 4;
                    let value = if code <= 2 * quarter {
                        quarter + tables::unzigzag(code)
                    } else {
                        code as int
                    };
                    let limit = if value <= 2 * quarter {
                        value
                    } else {
                        2 * quarter
                    };
                    dense_weights(
                        bits,
                        at,
                        symbols,
                        rice,
                        base_bits,
                        average + limit - quarter,
                        weights.push((symbols[weights.len() as int], (value + 1) as usize)),
                    )
                },
            }
        }
    }
}

/// The weights of a table of `2^table_bits` states, and where they end.
pub open spec fn tans_weights(bits: Seq<bool>, at: nat, table_bits: nat) -> Option<
    (Seq<(u8, usize)>, nat),
> {
    match readers::read_bits(bits, at, 1) {
        None => None,
        Some((dense, at)) => if dense == 0 {
            match readers::read_bits(bits, at, 3) {
                None => None,
                Some((count, at)) => match readers::read_bits(bits, at, 4) {
                    None => None,
                    Some((delta_bits, at)) => if delta_bits == 0 || delta_bits > table_bits {
                        None
                    } else {
                        sparse_weights(
                            bits,
                            at,
                            count + 1,
                            delta_bits,
                            pow2(table_bits),
                            seq![],
                        )
                    },
                },
            }
        } else {
            match readers::read_bits(bits, at, 3) {
                None => None,
                Some((base_bits, at)) => match readers::read_bits(bits, at, 8) {
                    None => None,
                    Some((last, at)) => if last == 0 {
                        None
                    } else {
                        tans_dense(bits, at, base_bits, last + 1, table_bits)
                    },
                },
            }
        },
    }
}

/// What follows the symbol count of a dense table.
pub open spec fn tans_dense(
    bits: Seq<bool>,
    at: nat,
    base_bits: nat,
    count: nat,
    table_bits: nat,
) -> Option<(Seq<(u8, usize)>, nat)> {
    match tables::range_code_count(bits, at, count) {
        None => None,
        Some((extra, at)) => match tables::read_unaries(bits, at, count + extra, seq![]) {
            None => None,
            Some((rice, at)) => match tables::symbol_ranges(
                bits,
                at,
                rice.subrange(count as int, rice.len() as int),
                count,
            ) {
                None => None,
                Some((ranges, at)) => match dense_weights(
                    bits,
                    at,
                    tables::all_symbols(ranges),
                    rice,
                    base_bits,
                    6,
                    seq![],
                ) {
                    None => None,
                    Some((weights, at)) => if total_weight(weights) != pow2(table_bits) {
                        None
                    } else {
                        Some((weights, at))
                    },
                },
            },
        },
    }
}

/// Sorts weights by symbol.
pub fn sort_by_symbol(weights: &[(u8, usize)]) -> (result: Vec<(u8, usize)>)
    requires
        forall|i: int| 0 <= i < weights@.len() ==> (#[trigger] weights@[i]).1 <= 0xffff_ffff,
    ensures
        result@ == by_symbol(weights@),
{
    let mut keys: Vec<u64> = Vec::new();
    let mut i: usize = 0;
    while i < weights.len()
        invariant
            i <= weights@.len(),
            forall|k: int| 0 <= k < weights@.len() ==> (#[trigger] weights@[k]).1 <= 0xffff_ffff,
            keys@ == weight_keys(weights@).subrange(0, i as int),
        decreases weights@.len() - i,
    {
        assert(weights@[i as int].1 <= 0xffff_ffff);
        keys.push(weights[i].0 as u64 * 0x1_0000_0000 + weights[i].1 as u64);
        i = i + 1;
        assert(keys@ =~= weight_keys(weights@).subrange(0, i as int));
    }
    assert(keys@ =~= weight_keys(weights@));
    let keys: Vec<u64> = sort_keys(&keys);
    let mut result: Vec<(u8, usize)> = Vec::new();
    let mut i: usize = 0;
    while i < keys.len()
        invariant
            i <= keys@.len(),
            keys@ == sequence::sorted(weight_keys(weights@)),
            result@ == by_symbol(weights@).subrange(0, i as int),
            keys@.len() == weights@.len(),
        decreases keys@.len() - i,
    {
        let key: u64 = keys[i];
        result.push(((key / 0x1_0000_0000) as u8, (key % 0x1_0000_0000) as usize));
        i = i + 1;
        assert(result@ =~= by_symbol(weights@).subrange(0, i as int));
    }
    assert(result@ =~= by_symbol(weights@));
    result
}

fn symbol_has_weight(weights: &[(u8, usize)], symbol: u8) -> (result: bool)
    ensures
        result == has_weight(weights@, symbol),
{
    let mut i: usize = 0;
    while i < weights.len()
        invariant
            i <= weights@.len(),
            forall|k: int| 0 <= k < i ==> (#[trigger] weights@[k]).0 != symbol,
        decreases weights@.len() - i,
    {
        if weights[i].0 == symbol {
            assert(weights@[i as int].0 == symbol);
            return true;
        }
        i = i + 1;
    }
    false
}

fn read_sparse_weights(
    reader: &mut MsbReader<'_>,
    count: usize,
    delta_bits: usize,
    table_size: usize,
) -> (result: Option<Vec<(u8, usize)>>)
    requires
        old(reader).wf(),
        delta_bits <= 11,
        table_size <= 2048,
    ensures
        final(reader).wf(),
        final(reader).bits() == old(reader).bits(),
        match sparse_weights(
            old(reader).bits(),
            old(reader).at(),
            count as nat,
            delta_bits as nat,
            table_size as nat,
            seq![],
        ) {
            None => result is None,
            Some((weights, at)) => result matches Some(r) && r@ == weights && final(reader).at()
                == at,
        },
{
    let mut weights: Vec<(u8, usize)> = Vec::new();
    let mut weight: usize = 0;
    let mut total: usize = 0;
    let mut left: usize = count;
    loop
        invariant
            left <= count,
            delta_bits <= 11,
            table_size <= 2048,
            reader.wf(),
            reader.bits() == old(reader).bits(),
            weight == last_weight(weights@),
            total == total_weight(weights@),
            weight <= total,
            total < table_size || total == 0,
            forall|k: int| 0 <= k < weights@.len() ==> (#[trigger] weights@[k]).1 <= 2048,
            sparse_weights(
                reader.bits(),
                reader.at(),
                left as nat,
                delta_bits as nat,
                table_size as nat,
                weights@,
            ) == sparse_weights(
                old(reader).bits(),
                old(reader).at(),
                count as nat,
                delta_bits as nat,
                table_size as nat,
                seq![],
            ),
        decreases left,
    {
        let symbol: u8 = match reader.read(8) {
            Some(symbol) => symbol as u8,
            None => return None,
        };
        if symbol_has_weight(&weights, symbol) {
            return None;
        }
        if left == 0 {
            let rest: usize = table_size - total;
            if rest <= 1 || rest < weight {
                return None;
            }
            weights.push((symbol, rest));
            return Some(sort_by_symbol(&weights));
        }
        let ghost all = reader.bits();
        let ghost at = reader.at();
        let delta: usize = match reader.read(delta_bits) {
            Some(delta) => delta,
            None => return None,
        };
        proof {
            lemma2_to64();
            bits::lemma_bits_of_msb_value(all.subrange(at as int, (at + delta_bits) as int));
            if delta_bits < 11 {
                lemma_pow2_strictly_increases(delta_bits as nat, 11);
            }
        }
        weight = weight + delta;
        if weight == 0 {
            return None;
        }
        total = total + weight;
        if total >= table_size {
            return None;
        }
        let ghost before = weights@;
        weights.push((symbol, weight));
        assert(weights@.drop_last() =~= before);
        left = left - 1;
    }
}

fn read_dense_weights(
    reader: &mut MsbReader<'_>,
    symbols: &[u8],
    rice: &[usize],
    base_bits: usize,
) -> (result: Option<Vec<(u8, usize)>>)
    requires
        old(reader).wf(),
        base_bits <= 7,
        symbols@.len() <= rice@.len(),
        symbols@.len() <= 256,
        forall|i: int| 0 <= i < rice@.len() ==> #[trigger] rice@[i] <= 255,
    ensures
        final(reader).wf(),
        final(reader).bits() == old(reader).bits(),
        match dense_weights(
            old(reader).bits(),
            old(reader).at(),
            symbols@,
            rice@,
            base_bits as nat,
            6,
            seq![],
        ) {
            None => result is None,
            Some((weights, at)) => result matches Some(r) && r@ == weights && final(reader).at()
                == at && (forall|k: int|
                0 <= k < weights.len() ==> (#[trigger] weights[k]).1 <= 0x80_0000)
                && weights.len() <= 256,
        },
{
    let mut weights: Vec<(u8, usize)> = Vec::new();
    let mut average: i32 = 6;
    while weights.len() < symbols.len()
        invariant
            weights@.len() <= symbols@.len() <= rice@.len(),
            symbols@.len() <= 256,
            base_bits <= 7,
            forall|i: int| 0 <= i < rice@.len() ==> #[trigger] rice@[i] <= 255,
            reader.wf(),
            reader.bits() == old(reader).bits(),
            0 <= average <= 6 + 65536 * weights@.len(),
            forall|k: int| 0 <= k < weights@.len() ==> (#[trigger] weights@[k]).1 <= 0x80_0000,
            dense_weights(
                reader.bits(),
                reader.at(),
                symbols@,
                rice@,
                base_bits as nat,
                average as int,
                weights@,
            ) == dense_weights(
                old(reader).bits(),
                old(reader).at(),
                symbols@,
                rice@,
                base_bits as nat,
                6,
                seq![],
            ),
        decreases symbols@.len() - weights@.len(),
    {
        let index: usize = weights.len();
        let extra_bits: usize = base_bits + rice[index];
        if extra_bits > 15 {
            return None;
        }
        let ghost all = reader.bits();
        let ghost at = reader.at();
        let low: usize = match reader.read(extra_bits) {
            Some(low) => low,
            None => return None,
        };
        let high: usize = power_of_two(extra_bits);
        let first: usize = power_of_two(base_bits);
        proof {
            lemma2_to64();
            bits::lemma_bits_of_msb_value(all.subrange(at as int, (at + extra_bits) as int));
            if extra_bits < 15 {
                lemma_pow2_strictly_increases(extra_bits as nat, 15);
            }
            if base_bits < extra_bits {
                lemma_pow2_strictly_increases(base_bits as nat, extra_bits as nat);
            }
        }
        let code: i32 = (low + high - first) as i32;
        let quarter: i32 = average / 4;
        let value: i32 = if code <= 2 * quarter {
            if code % 2 == 0 {
                quarter + code / 2
            } else {
                quarter - code / 2 - 1
            }
        } else {
            code
        };
        let limit: i32 = if value <= 2 * quarter {
            value
        } else {
            2 * quarter
        };
        weights.push((symbols[index], (value + 1) as usize));
        average = average + (limit - quarter);
    }
    Some(weights)
}

/// Sums up weights.
fn sum_weights(weights: &[(u8, usize)]) -> (result: usize)
    requires
        weights@.len() <= 256,
        forall|k: int| 0 <= k < weights@.len() ==> (#[trigger] weights@[k]).1 <= 0x80_0000,
    ensures
        result == total_weight(weights@),
{
    let mut total: usize = 0;
    let mut i: usize = 0;
    assert(weights@.subrange(0, 0) =~= Seq::<(u8, usize)>::empty());
    while i < weights.len()
        invariant
            i <= weights@.len() <= 256,
            forall|k: int| 0 <= k < weights@.len() ==> (#[trigger] weights@[k]).1 <= 0x80_0000,
            total == total_weight(weights@.subrange(0, i as int)),
            total <= 0x80_0000 * i,
        decreases weights@.len() - i,
    {
        proof {
            lemma_sums_step(weights@, i as int);
            assert(weights@[i as int].1 <= 0x80_0000);
        }
        total = total + weights[i].1;
        i = i + 1;
    }
    assert(weights@.subrange(0, weights@.len() as int) =~= weights@);
    total
}

/// Reads the weights of a table of `2^table_bits` states.
pub fn decode_tans_weights(reader: &mut MsbReader<'_>, table_bits: usize) -> (result: Option<
    Vec<(u8, usize)>,
>)
    requires
        old(reader).wf(),
        8 <= table_bits <= 11,
    ensures
        final(reader).wf(),
        final(reader).bits() == old(reader).bits(),
        match tans_weights(old(reader).bits(), old(reader).at(), table_bits as nat) {
            None => result is None,
            Some((weights, at)) => result matches Some(r) && r@ == weights && final(reader).at()
                == at,
        },
{
    let table_size: usize = power_of_two(table_bits);
    let ghost all = reader.bits();
    let ghost start = reader.at();
    proof {
        lemma2_to64();
        if table_bits < 11 {
            lemma_pow2_strictly_increases(table_bits as nat, 11);
        }
    }
    let dense: usize = match reader.read(1) {
        Some(dense) => dense,
        None => return None,
    };
    let first: usize = match reader.read(3) {
        Some(first) => first,
        None => return None,
    };
    proof {
        bits::lemma_bits_of_msb_value(all.subrange((start + 1) as int, (start + 4) as int));
    }
    if dense == 0 {
        let delta_bits: usize = match reader.read(4) {
            Some(delta_bits) => delta_bits,
            None => return None,
        };
        if delta_bits == 0 || delta_bits > table_bits {
            return None;
        }
        return read_sparse_weights(reader, first + 1, delta_bits, table_size);
    }
    let last: usize = match reader.read(8) {
        Some(last) => last,
        None => return None,
    };
    proof {
        bits::lemma_bits_of_msb_value(all.subrange((start + 4) as int, (start + 12) as int));
    }
    if last == 0 {
        return None;
    }
    let count: usize = last + 1;
    let extra: usize = match tans_fluff(reader, count) {
        Some(extra) => extra,
        None => return None,
    };
    let rice: Vec<usize> = match read_unary_values(reader, count + extra) {
        Some(rice) => rice,
        None => return None,
    };
    let codes: &[usize] = vstd::slice::slice_subrange(&rice, count, rice.len());
    proof {
        tables::lemma_symbol_ranges_bounds(reader.bits(), reader.at(), codes@, count as nat);
    }
    let ranges: Vec<(usize, usize)> = match decode_symbol_ranges(reader, count, codes) {
        Some(ranges) => ranges,
        None => return None,
    };
    let symbols: Vec<u8> = expand_ranges(&ranges);
    let weights: Vec<(u8, usize)> = match read_dense_weights(reader, &symbols, &rice, first) {
        Some(weights) => weights,
        None => return None,
    };
    if sum_weights(&weights) != table_size {
        return None;
    }
    Some(weights)
}

// ---------------------------------------------------------------------------
// Decoding
// ---------------------------------------------------------------------------

/// Five states take turns, five times reading from the front and five times
/// from the back: the symbols after `out`, and the last states.
pub open spec fn tans_symbols(
    table: Seq<TansEntry>,
    front: Seq<bool>,
    back: Seq<bool>,
    out: Seq<u8>,
    states: Seq<usize>,
    front_at: nat,
    back_at: nat,
    size: nat,
) -> Option<(Seq<u8>, Seq<usize>, nat, nat)>
    decreases size - out.len(),
{
    if out.len() >= size {
        Some((out, states, front_at, back_at))
    } else {
        let turn = (out.len() % 5) as int;
        let state = states[turn];
        if state >= table.len() {
            None
        } else {
            let entry = table[state as int];
            if out.len() % 10 >= 5 {
                match readers::tans_read(back, back_at, front_at, entry.bits as nat) {
                    None => None,
                    Some((value, next)) => tans_symbols(
                        table,
                        front,
                        back,
                        out.push(entry.symbol),
                        states.update(turn, (entry.base + value) as usize),
                        front_at,
                        next,
                        size,
                    ),
                }
            } else {
                match readers::tans_read(front, front_at, back_at, entry.bits as nat) {
                    None => None,
                    Some((value, next)) => tans_symbols(
                        table,
                        front,
                        back,
                        out.push(entry.symbol),
                        states.update(turn, (entry.base + value) as usize),
                        next,
                        back_at,
                        size,
                    ),
                }
            }
        }
    }
}

/// The five first states, read from the front and the back in turn.
pub open spec fn first_states(front: Seq<bool>, back: Seq<bool>, table_bits: nat) -> Option<
    Seq<usize>,
> {
    if front.len() < 5 * table_bits {
        None
    } else {
        let b = table_bits as int;
        Some(
            seq![
                bits::lsb_value(front.subrange(0, b)) as usize,
                bits::lsb_value(back.subrange(0, b)) as usize,
                bits::lsb_value(front.subrange(b, 2 * b)) as usize,
                bits::lsb_value(back.subrange(b, 2 * b)) as usize,
                bits::lsb_value(front.subrange(2 * b, 3 * b)) as usize,
            ],
        )
    }
}

/// The symbols of a stream: the last five are the last states themselves.
pub open spec fn tans_stream(
    table: Seq<TansEntry>,
    table_bits: nat,
    stream: Seq<u8>,
    size: nat,
) -> Option<Seq<u8>> {
    let front = bits::lsb_bits(stream);
    let back = bits::lsb_bits(stream.reverse());
    match first_states(front, back, table_bits) {
        None => None,
        Some(states) => match tans_symbols(
            table,
            front,
            back,
            seq![],
            states,
            3 * table_bits,
            2 * table_bits,
            (size - 5) as nat,
        ) {
            None => None,
            Some((out, states, front_at, back_at)) => if bits::bytes_for(front_at)
                + bits::bytes_for(back_at) != stream.len() || exists|i: int|
                0 <= i < 5 && #[trigger] states[i] > 255 {
                None
            } else {
                Some(out + states.map_values(|s: usize| s as u8))
            },
        },
    }
}

/// A payload: one zero bit, the table's size and weights, and the stream.
pub open spec fn tans_payload(payload: Seq<u8>, size: nat) -> Option<Seq<u8>> {
    let header = bits::msb_bits(payload);
    if payload.len() < 8 || size < 5 {
        None
    } else {
        match readers::read_bits(header, 0, 3) {
            None => None,
            Some((kind, at)) => if kind >= 4 {
                None
            } else {
                match tans_weights(header, at, kind + 8) {
                    None => None,
                    Some((weights, at)) => match tans_table(weights, kind + 8) {
                        None => None,
                        Some(table) => tans_stream(
                            table,
                            kind + 8,
                            payload.subrange(bits::bytes_for(at) as int, payload.len() as int),
                            size,
                        ),
                    },
                }
            },
        }
    }
}

/// Every state of a table leads to as many states as its bits can tell apart.
pub open spec fn table_ok(table: Seq<TansEntry>, table_bits: nat) -> bool {
    forall|i: int|
        0 <= i < table.len() ==> entry_ok(#[trigger] table[i], table_bits)
}

pub open spec fn entry_ok(entry: TansEntry, table_bits: nat) -> bool {
    &&& entry.bits <= table_bits
    &&& entry.mask + 1 == pow2(entry.bits as nat)
    &&& entry.base < pow2(table_bits)
}

pub proof fn lemma_tans_entry_ok(symbol: u8, x: nat, table_bits: nat)
    requires
        1 <= x,
        table_bits <= 11,
    ensures
        entry_ok(tans_entry(symbol, x, table_bits), table_bits)
        || writers::log2(x) > table_bits,
{
    lemma2_to64();
    if writers::log2(x) <= table_bits {
        let bits = (table_bits - writers::log2(x)) as nat;
        lemma_pow2_pos(bits);
        lemma_pow2_pos(table_bits);
        if bits < 11 {
            lemma_pow2_strictly_increases(bits, 11);
        }
        if table_bits < 11 {
            lemma_pow2_strictly_increases(table_bits, 11);
        }
        vstd::arithmetic::div_mod::lemma_mod_bound(
            (x * pow2(bits)) as int,
            pow2(table_bits) as int,
        );
    }
}

proof fn lemma_put_run_ok(
    table: Seq<TansEntry>,
    at: nat,
    n: nat,
    symbol: u8,
    x: nat,
    table_bits: nat,
)
    requires
        table_ok(table, table_bits),
        table_bits <= 11,
        at + n <= table.len(),
        1 <= x,
        x + n <= 2 * pow2(table_bits),
    ensures
        table_ok(put_run(table, at, n, symbol, x, table_bits), table_bits),
        put_run(table, at, n, symbol, x, table_bits).len() == table.len(),
    decreases n,
{
    if n > 0 {
        lemma_tans_entry_ok(symbol, x, table_bits);
        writers::lemma_log2(x);
        lemma_pow2_unfold(table_bits + 1);
        if writers::log2(x) > table_bits {
            if writers::log2(x) > table_bits + 1 {
                lemma_pow2_strictly_increases(table_bits + 1, writers::log2(x));
            }
        }
        let next = table.update(at as int, tans_entry(symbol, x, table_bits));
        assert forall|i: int| 0 <= i < next.len() implies entry_ok(
            #[trigger] next[i],
            table_bits,
        ) by {
            if i != at {
                assert(next[i] == table[i]);
            }
        }
        lemma_put_run_ok(next, at + 1, (n - 1) as nat, symbol, x + 1, table_bits);
    }
}

proof fn lemma_put_quarters_ok(
    table: Seq<TansEntry>,
    allocated: nat,
    sum: nat,
    symbol: u8,
    weight: nat,
    table_bits: nat,
)
    requires
        table_ok(table, table_bits),
        table_bits <= 11,
        table.len() == pow2(table_bits),
        sum + weight <= allocated <= table.len(),
        1 <= weight,
    ensures
        ({
            let result = put_quarters(
                table,
                0,
                allocated,
                sum,
                symbol,
                weight,
                weight,
                table_bits,
            );
            table_ok(result, table_bits) && result.len() == table.len()
        }),
{
    lemma_dealt(allocated);
    lemma_dealt(sum);
    lemma_dealt(sum + weight);
    lemma_put_quarters(table, allocated, sum, symbol, weight, table_bits);
    let start1 = (allocated + 3) / 4;
    let start2 = start1 + (allocated + 2) / 4;
    let start3 = start2 + (allocated + 1) / 4;
    let n0 = ((sum + weight + 3) / 4 - (sum + 3) / 4) as nat;
    let n1 = ((sum + weight + 2) / 4 - (sum + 2) / 4) as nat;
    let n2 = ((sum + weight + 1) / 4 - (sum + 1) / 4) as nat;
    let n3 = ((sum + weight) / 4 - sum / 4) as nat;
    lemma_put_run_ok(table, (sum + 3) / 4, n0, symbol, weight, table_bits);
    let t0 = put_run(table, (sum + 3) / 4, n0, symbol, weight, table_bits);
    lemma_put_run_ok(t0, start1 + (sum + 2) / 4, n1, symbol, weight + n0, table_bits);
    let t1 = put_run(t0, start1 + (sum + 2) / 4, n1, symbol, weight + n0, table_bits);
    lemma_put_run_ok(t1, start2 + (sum + 1) / 4, n2, symbol, weight + n0 + n1, table_bits);
    let t2 = put_run(t1, start2 + (sum + 1) / 4, n2, symbol, weight + n0 + n1, table_bits);
    lemma_put_run_ok(t2, start3 + sum / 4, n3, symbol, weight + n0 + n1 + n2, table_bits);
}

proof fn lemma_put_weights_ok(
    weights: Seq<(u8, usize)>,
    i: nat,
    allocated: nat,
    table_bits: nat,
)
    requires
        table_bits <= 11,
        i <= weights.len(),
        total_weight(weights) == pow2(table_bits),
        allocated + single_count(weights) == pow2(table_bits),
    ensures
        table_ok(put_weights(weights, i, allocated, table_bits), table_bits),
        put_weights(weights, i, allocated, table_bits).len() == pow2(table_bits),
    decreases i,
{
    lemma2_to64();
    lemma_pow2_pos(table_bits);
    if i > 0 {
        lemma_put_weights_ok(weights, (i - 1) as nat, allocated, table_bits);
        lemma_sums_step(weights, i - 1);
        lemma_sums_monotone(weights, i as int, weights.len() as int);
        lemma_sums_monotone(weights, i - 1, i as int);
        assert(weights.subrange(0, weights.len() as int) =~= weights);
        let before = put_weights(weights, (i - 1) as nat, allocated, table_bits);
        let symbol = weights[i - 1].0;
        let weight = weights[i - 1].1 as nat;
        let prefix = weights.subrange(0, i - 1);
        if weight == 1 {
            lemma_tans_entry_ok(symbol, 1, table_bits);
            let at = (allocated + single_count(prefix)) as int;
            let after = before.update(at, tans_entry(symbol, 1, table_bits));
            assert forall|k: int| 0 <= k < after.len() implies entry_ok(
                #[trigger] after[k],
                table_bits,
            ) by {
                if k != at {
                    assert(after[k] == before[k]);
                }
            }
        } else if weight > 1 {
            lemma_put_quarters_ok(
                before,
                allocated,
                (total_weight(prefix) - single_count(prefix)) as nat,
                symbol,
                weight,
                table_bits,
            );
        }
    }
}

/// Every state of a table leads to as many states as its bits can tell apart.
pub proof fn lemma_tans_table_ok(weights: Seq<(u8, usize)>, table_bits: nat)
    requires
        table_bits <= 11,
    ensures
        tans_table(weights, table_bits) matches Some(table) ==> table_ok(table, table_bits)
            && table.len() == pow2(table_bits),
{
    if total_weight(weights) == pow2(table_bits) {
        lemma_sums_monotone(weights, weights.len() as int, weights.len() as int);
        assert(weights.subrange(0, weights.len() as int) =~= weights);
        lemma_put_weights_ok(
            weights,
            weights.len(),
            (pow2(table_bits) - single_count(weights)) as nat,
            table_bits,
        );
    }
}

fn read_first_states(reader: &mut TansPairedBits<'_>, table_bits: usize) -> (result: Option<
    Vec<usize>,
>)
    requires
        old(reader).wf(),
        old(reader).front_at() == 0,
        old(reader).back_at() == 0,
        8 <= table_bits <= 11,
    ensures
        final(reader).wf(),
        final(reader).same_source(old(reader)),
        match first_states(old(reader).front(), old(reader).back(), table_bits as nat) {
            None => result is None,
            Some(states) => result matches Some(r) && r@ == states && final(reader).front_at() == 3
                * table_bits && final(reader).back_at() == 2 * table_bits,
        },
{
    proof {
        reader.lemma_bound();
    }
    let first: usize = match reader.read_front(table_bits) {
        Some(state) => state,
        None => return None,
    };
    let second: usize = match reader.read_back(table_bits) {
        Some(state) => state,
        None => return None,
    };
    let third: usize = match reader.read_front(table_bits) {
        Some(state) => state,
        None => return None,
    };
    let fourth: usize = match reader.read_back(table_bits) {
        Some(state) => state,
        None => return None,
    };
    let fifth: usize = match reader.read_front(table_bits) {
        Some(state) => state,
        None => return None,
    };
    let states: Vec<usize> = vec![first, second, third, fourth, fifth];
    proof {
        let b = table_bits as int;
        assert(states@ =~= first_states(
            old(reader).front(),
            old(reader).back(),
            table_bits as nat,
        )->Some_0);
    }
    Some(states)
}

fn decode_tans_stream(
    table: &[TansEntry],
    table_bits: usize,
    stream: &[u8],
    decoded_size: usize,
) -> (result: Option<Vec<u8>>)
    requires
        8 <= table_bits <= 11,
        8 * stream@.len() <= usize::MAX,
        decoded_size >= 5,
        table_ok(table@, table_bits as nat),
    ensures
        match tans_stream(table@, table_bits as nat, stream@, decoded_size as nat) {
            None => result is None,
            Some(out) => result matches Some(r) && r@ == out,
        },
{
    let mut reader = TansPairedBits::new(stream);
    let ghost front = reader.front();
    let ghost back = reader.back();
    let mut states: Vec<usize> = match read_first_states(&mut reader, table_bits) {
        Some(states) => states,
        None => return None,
    };
    let ghost first = states@;
    let body_size: usize = decoded_size - 5;
    let mut output: Vec<u8> = Vec::new();
    proof {
        lemma2_to64();
        if table_bits < 11 {
            lemma_pow2_strictly_increases(table_bits as nat, 11);
        }
    }
    while output.len() < body_size
        invariant
            output@.len() <= body_size,
            body_size == decoded_size - 5,
            8 <= table_bits <= 11,
            pow2(table_bits as nat) <= 2048,
            table_ok(table@, table_bits as nat),
            states@.len() == 5,
            reader.wf(),
            reader.front() == front,
            reader.back() == back,
            first_states(front, back, table_bits as nat) == Some(first),
            front == bits::lsb_bits(stream@),
            back == bits::lsb_bits(stream@.reverse()),
            tans_symbols(
                table@,
                front,
                back,
                output@,
                states@,
                reader.front_at(),
                reader.back_at(),
                body_size as nat,
            ) == tans_symbols(
                table@,
                front,
                back,
                seq![],
                first,
                (3 * table_bits) as nat,
                (2 * table_bits) as nat,
                body_size as nat,
            ),
        decreases body_size - output@.len(),
    {
        let turn: usize = output.len() % 5;
        let state: usize = states[turn];
        if state >= table.len() {
            return None;
        }
        let entry: TansEntry = table[state];
        assert(entry_ok(table@[state as int], table_bits as nat));
        let read: Option<usize> = if output.len() % 10 >= 5 {
            reader.read_back(entry.bits)
        } else {
            reader.read_front(entry.bits)
        };
        let value: usize = match read {
            Some(value) => value,
            None => return None,
        };
        output.push(entry.symbol);
        states.set(turn, entry.base + value);
    }
    if !reader.consumed_exactly() {
        return None;
    }
    let ghost last = states@;
    let ghost body = output@;
    let mut i: usize = 0;
    assert(output@ =~= body + last.subrange(0, 0).map_values(|s: usize| s as u8));
    while i < 5
        invariant
            i <= 5,
            states@ == last,
            last.len() == 5,
            forall|k: int| 0 <= k < i ==> #[trigger] last[k] <= 255,
            output@ == body + last.subrange(0, i as int).map_values(|s: usize| s as u8),
            tans_stream(table@, table_bits as nat, stream@, decoded_size as nat) == (if exists|k: int|
                0 <= k < 5 && #[trigger] last[k] > 255 {
                None
            } else {
                Some(body + last.map_values(|s: usize| s as u8))
            }),
        decreases 5 - i,
    {
        let state: usize = states[i];
        if state > 255 {
            assert(last[i as int] > 255);
            return None;
        }
        output.push(state as u8);
        i = i + 1;
        assert(output@ =~= body + last.subrange(0, i as int).map_values(|s: usize| s as u8));
    }
    assert(last.subrange(0, 5) =~= last);
    Some(output)
}

fn decode_tans_payload(payload: &[u8], decoded_size: usize) -> (result: Option<Vec<u8>>)
    requires
        8 * payload@.len() <= usize::MAX,
    ensures
        match tans_payload(payload@, decoded_size as nat) {
            None => result is None,
            Some(out) => result matches Some(r) && r@ == out,
        },
{
    if payload.len() < 8 || decoded_size < 5 {
        return None;
    }
    let mut header = MsbReader::new(payload);
    let kind: usize = match header.read(3) {
        Some(kind) => kind,
        None => return None,
    };
    if kind >= 4 {
        return None;
    }
    let table_bits: usize = kind + 8;
    let weights: Vec<(u8, usize)> = match decode_tans_weights(&mut header, table_bits) {
        Some(weights) => weights,
        None => return None,
    };
    let table: Vec<TansEntry> = match build_tans_table(&weights, table_bits) {
        Some(table) => table,
        None => return None,
    };
    proof {
        lemma_tans_table_ok(weights@, table_bits as nat);
    }
    let start: usize = header.consumed_bytes();
    decode_tans_stream(&table, table_bits, part(payload, start, payload.len()), decoded_size)
}

/// Decodes a payload of interleaved states.
pub fn decode_tans(payload: &[u8], decoded_size: usize, offset: usize) -> (result: Result<
    Vec<u8>,
    KrakenError,
>)
    requires
        8 * payload@.len() <= usize::MAX,
    ensures
        match tans_payload(payload@, decoded_size as nat) {
            None => result == Err::<Vec<u8>, KrakenError>(KrakenError::InvalidArray { offset }),
            Some(out) => result matches Ok(r) && r@ == out,
        },
{
    match decode_tans_payload(payload, decoded_size) {
        Some(output) => Ok(output),
        None => Err(KrakenError::InvalidArray { offset }),
    }
}

} // verus!
