//! Writing Huffman-coded arrays.

use super::bits;
use super::huffman;
use super::huffman_codes;
use super::huffman::{canonical_huffman_table, OldHuffmanTable};
use super::lz_encoder::append_reversed;
use super::readers::{ceil_bytes, power_of_two};
use super::tables;
use super::tables::decode_new_huffman_table;
use super::writers;
use super::writers::{ilog2, LsbWriter, MsbBits};
use crate::sequence::{append, to_vec};
use vstd::arithmetic::power2::{lemma2_to64, lemma_pow2_strictly_increases, lemma_pow2_unfold, pow2};
use vstd::prelude::*;

verus! {

// ---------------------------------------------------------------------------
// Envelopes
// ---------------------------------------------------------------------------

/// A 32-bit number, high byte first.
pub open spec fn be32_bytes(value: nat) -> Seq<u8> {
    seq![
        (value / 0x100_0000) as u8,
        ((value / 0x10000) % 256) as u8,
        ((value / 256) % 256) as u8,
        (value % 256) as u8,
    ]
}

/// The array of a coded payload, if the payload is smaller and both sizes fit.
pub open spec fn envelope(kind: nat, payload: Seq<u8>, size: nat) -> Option<Seq<u8>> {
    if payload.len() >= size || size > 0x3_ffff {
        None
    } else {
        Some(
            seq![(kind * 16 + (size - 1) / 0x4000) as u8] + be32_bytes(
                (((size - 1) % 0x4000) * 0x4_0000 + payload.len()) as nat,
            ) + payload,
        )
    }
}

/// Puts a coded payload into its envelope.
pub fn encode_array_envelope(array_type: u8, payload: &[u8], decoded_size: usize) -> (result: Option<
    Vec<u8>,
>)
    requires
        array_type <= 7,
    ensures
        match envelope(array_type as nat, payload@, decoded_size as nat) {
            None => result is None,
            Some(bytes) => result matches Some(r) && r@ == bytes,
        },
{
    if payload.len() >= decoded_size || decoded_size > 0x3_ffff {
        return None;
    }
    let last: usize = decoded_size - 1;
    let sizes: usize = (last % 0x4000) * 0x4_0000 + payload.len();
    let mut output: Vec<u8> = Vec::new();
    output.push(array_type * 16 + (last / 0x4000) as u8);
    output.push((sizes / 0x100_0000) as u8);
    output.push(((sizes / 0x10000) % 256) as u8);
    output.push(((sizes / 256) % 256) as u8);
    output.push((sizes % 256) as u8);
    append(&mut output, payload);
    proof {
        assert(output@ =~= envelope(array_type as nat, payload@, decoded_size as nat)->0);
    }
    Some(output)
}

// ---------------------------------------------------------------------------
// Frequencies
// ---------------------------------------------------------------------------

/// How often a byte occurs.
pub open spec fn occurrences(input: Seq<u8>, byte: int) -> nat
    decreases input.len(),
{
    if input.len() == 0 {
        0
    } else {
        occurrences(input.drop_last(), byte) + if input.last() == byte {
            1nat
        } else {
            0nat
        }
    }
}

/// How often each byte occurs.
pub open spec fn frequencies(input: Seq<u8>) -> Seq<usize> {
    Seq::new(256, |b: int| occurrences(input, b) as usize)
}

/// The bytes below `n` that occur, in order.
pub open spec fn used_symbols(counts: Seq<usize>, n: nat) -> Seq<u8>
    decreases n,
{
    if n == 0 {
        seq![]
    } else if counts[n - 1] != 0 {
        used_symbols(counts, (n - 1) as nat).push((n - 1) as u8)
    } else {
        used_symbols(counts, (n - 1) as nat)
    }
}

pub proof fn lemma_occurrences_bound(input: Seq<u8>, byte: int)
    ensures
        occurrences(input, byte) <= input.len(),
    decreases input.len(),
{
    if input.len() > 0 {
        lemma_occurrences_bound(input.drop_last(), byte);
    }
}

pub proof fn lemma_occurs(input: Seq<u8>, i: int)
    requires
        0 <= i < input.len(),
    ensures
        occurrences(input, input[i] as int) > 0,
    decreases input.len(),
{
    if i < input.len() - 1 {
        lemma_occurs(input.drop_last(), i);
    }
}

/// Symbols are listed in order, and exactly those that occur.
pub proof fn lemma_used_symbols(counts: Seq<usize>, n: nat)
    requires
        n <= counts.len(),
        n <= 256,
    ensures
        used_symbols(counts, n).len() <= n,
        forall|i: int| 0 <= i < used_symbols(counts, n).len() ==> #[trigger] used_symbols(
            counts,
            n,
        )[i] < n && counts[used_symbols(counts, n)[i] as int] != 0,
        forall|i: int, j: int|
            0 <= i < j < used_symbols(counts, n).len() ==> used_symbols(counts, n)[i]
                < used_symbols(counts, n)[j],
        forall|b: int|
            0 <= b < n && counts[b] != 0 ==> #[trigger] used_symbols(counts, n).contains(b as u8),
    decreases n,
{
    if n > 0 {
        lemma_used_symbols(counts, (n - 1) as nat);
        let before = used_symbols(counts, (n - 1) as nat);
        let after = used_symbols(counts, n);
        assert forall|b: int| 0 <= b < n && counts[b] != 0 implies #[trigger] after.contains(
            b as u8,
        ) by {
            if b == n - 1 {
                assert(after[after.len() - 1] == b as u8);
            } else {
                assert(before.contains(b as u8));
                let i = choose|i: int| 0 <= i < before.len() && before[i] == b as u8;
                assert(after[i] == b as u8);
            }
        }
    }
}

/// Counts how often each byte occurs.
pub fn count_bytes(input: &[u8]) -> (result: Vec<usize>)
    ensures
        result@ == frequencies(input@),
{
    let mut counts: Vec<usize> = Vec::new();
    while counts.len() < 256
        invariant
            counts@.len() <= 256,
            forall|b: int| 0 <= b < counts@.len() ==> counts@[b] == 0,
        decreases 256 - counts@.len(),
    {
        counts.push(0);
    }
    let mut i: usize = 0;
    assert(input@.subrange(0, 0) =~= Seq::<u8>::empty());
    while i < input.len()
        invariant
            i <= input@.len(),
            counts@.len() == 256,
            forall|b: int|
                0 <= b < 256 ==> #[trigger] counts@[b] == occurrences(
                    input@.subrange(0, i as int),
                    b,
                ),
        decreases input@.len() - i,
    {
        let byte: usize = input[i] as usize;
        proof {
            assert(input@.subrange(0, i + 1).drop_last() =~= input@.subrange(0, i as int));
            lemma_occurrences_bound(input@.subrange(0, i as int), byte as int);
        }
        let count: usize = counts[byte];
        counts.set(byte, count + 1);
        i = i + 1;
    }
    assert(input@.subrange(0, input@.len() as int) =~= input@);
    assert(counts@ =~= frequencies(input@));
    counts
}

/// Lists the bytes that occur.
pub fn list_used(counts: &[usize]) -> (result: Vec<u8>)
    requires
        counts@.len() == 256,
    ensures
        result@ == used_symbols(counts@, 256),
{
    let mut symbols: Vec<u8> = Vec::new();
    let mut i: usize = 0;
    while i < 256
        invariant
            i <= 256,
            counts@.len() == 256,
            symbols@ == used_symbols(counts@, i as nat),
        decreases 256 - i,
    {
        if counts[i] != 0 {
            symbols.push(i as u8);
        }
        i = i + 1;
    }
    symbols
}

// ---------------------------------------------------------------------------
// Code lengths
// ---------------------------------------------------------------------------

/// A node of less weight, or of the same weight and earlier.
pub open spec fn lighter(a: (usize, usize), b: (usize, usize)) -> bool {
    a.0 < b.0 || (a.0 == b.0 && a.1 < b.1)
}

/// Where the lightest of the first `n` nodes stands.
pub open spec fn lightest(nodes: Seq<(usize, usize)>, n: nat) -> nat
    decreases n,
{
    if n <= 1 {
        0
    } else {
        let best = lightest(nodes, (n - 1) as nat);
        if lighter(nodes[n - 1], nodes[best as int]) {
            (n - 1) as nat
        } else {
            best
        }
    }
}

/// Joins the two lightest nodes until one is left: the parent of each node.
pub open spec fn join_nodes(nodes: Seq<(usize, usize)>, parents: Seq<usize>, next: nat) -> Option<
    Seq<usize>,
>
    decreases nodes.len(),
{
    if nodes.len() <= 1 {
        Some(parents)
    } else {
        let i = lightest(nodes, nodes.len()) as int;
        let first = nodes[i];
        let rest = nodes.remove(i);
        let j = lightest(rest, rest.len()) as int;
        let second = rest[j];
        if i >= nodes.len() || j >= rest.len() || first.0 + second.0 > usize::MAX {
            None
        } else {
            join_nodes(
                rest.remove(j).push(((first.0 + second.0) as usize, next as usize)),
                parents.update(first.1 as int, next as usize).update(
                    second.1 as int,
                    next as usize,
                ),
                next + 1,
            )
        }
    }
}

/// How many ancestors a node has. Parents come after their children.
pub open spec fn node_depth(parents: Seq<usize>, node: nat) -> nat
    decreases parents.len() - node,
{
    if node >= parents.len() || parents[node as int] <= node || parents[node as int]
        >= parents.len() {
        0
    } else {
        1 + node_depth(parents, parents[node as int] as nat)
    }
}

/// The leaves, each with the frequency of its symbol.
pub open spec fn leaves(symbols: Seq<u8>, counts: Seq<usize>) -> Seq<(usize, usize)> {
    Seq::new(symbols.len(), |i: int| (counts[symbols[i] as int], i as usize))
}

/// How many of the first `n` symbols come before symbol `i` by frequency.
pub open spec fn frequency_rank(symbols: Seq<u8>, counts: Seq<usize>, i: int, n: nat) -> nat
    decreases n,
{
    if n == 0 {
        0
    } else {
        let j = n - 1;
        let a = counts[symbols[j] as int];
        let b = counts[symbols[i] as int];
        frequency_rank(symbols, counts, i, (n - 1) as nat) + if a > b || (a == b && symbols[j]
            < symbols[i]) {
            1nat
        } else {
            0nat
        }
    }
}

/// Code lengths of two neighbouring sizes: the most frequent symbols get the
/// shorter codes.
pub open spec fn flat_lengths(symbols: Seq<u8>, counts: Seq<usize>) -> Seq<u8> {
    let long = writers::log2((symbols.len() - 1) as nat) + 1;
    let short_count = pow2(long) - symbols.len();
    Seq::new(
        symbols.len(),
        |i: int|
            if frequency_rank(symbols, counts, i, symbols.len()) < short_count {
                (long - 1) as u8
            } else {
                long as u8
            },
    )
}

/// The parents of a tree's nodes before any are joined.
pub open spec fn no_parents(leaf_count: nat) -> Seq<usize> {
    Seq::new((2 * leaf_count - 1) as nat, |i: int| usize::MAX)
}

/// The lengths of a Huffman code, or flat ones if those get too long.
pub open spec fn code_lengths(symbols: Seq<u8>, counts: Seq<usize>) -> Option<Seq<u8>> {
    if symbols.len() < 2 || symbols.len() > 255 {
        None
    } else {
        match join_nodes(
            leaves(symbols, counts),
            no_parents(symbols.len()),
            symbols.len(),
        ) {
            None => None,
            Some(parents) => if forall|i: nat|
                i < symbols.len() ==> #[trigger] node_depth(parents, i) <= 11 {
                Some(Seq::new(symbols.len(), |i: int| node_depth(parents, i as nat) as u8))
            } else {
                Some(flat_lengths(symbols, counts))
            },
        }
    }
}

proof fn lemma_lightest(nodes: Seq<(usize, usize)>, n: nat)
    requires
        0 < n <= nodes.len(),
    ensures
        lightest(nodes, n) < n,
    decreases n,
{
    if n > 1 {
        lemma_lightest(nodes, (n - 1) as nat);
    }
}

fn find_lightest(nodes: &[(usize, usize)]) -> (result: usize)
    requires
        nodes@.len() > 0,
    ensures
        result == lightest(nodes@, nodes@.len()),
        result < nodes@.len(),
{
    let mut best: usize = 0;
    let mut i: usize = 1;
    while i < nodes.len()
        invariant
            1 <= i <= nodes@.len(),
            best < i,
            best == lightest(nodes@, i as nat),
        decreases nodes@.len() - i,
    {
        let a: (usize, usize) = nodes[i];
        let b: (usize, usize) = nodes[best];
        if a.0 < b.0 || (a.0 == b.0 && a.1 < b.1) {
            best = i;
        }
        i = i + 1;
    }
    best
}

/// Every parent comes after its child, and only joined nodes have one.
spec fn parents_ok(nodes: Seq<(usize, usize)>, parents: Seq<usize>, next: nat) -> bool {
    &&& next + nodes.len() <= parents.len() + 1
    &&& next <= parents.len()
    &&& forall|i: int| 0 <= i < nodes.len() ==> (#[trigger] nodes[i]).1 < next
    &&& forall|i: int|
        0 <= i < parents.len() ==> #[trigger] parents[i] == usize::MAX || i < parents[i]
            < parents.len()
}

#[verifier::loop_isolation(false)]
fn build_parents(nodes: Vec<(usize, usize)>, parents: Vec<usize>, leaf_count: usize) -> (result: Option<
    Vec<usize>,
>)
    requires
        parents_ok(nodes@, parents@, leaf_count as nat),
        parents@.len() < 1000,
    ensures
        match join_nodes(nodes@, parents@, leaf_count as nat) {
            None => result is None,
            Some(r) => result matches Some(v) && v@ == r && r.len() == parents@.len() && (forall|
                i: int,
            |
                0 <= i < r.len() ==> #[trigger] r[i] == usize::MAX || i < r[i] < r.len()),
        },
{
    let ghost whole = join_nodes(nodes@, parents@, leaf_count as nat);
    let mut nodes: Vec<(usize, usize)> = nodes;
    let mut parents: Vec<usize> = parents;
    let ghost size = parents@.len();
    let mut next: usize = leaf_count;
    while nodes.len() > 1
        invariant
            parents_ok(nodes@, parents@, next as nat),
            parents@.len() == size,
            size < 1000,
            join_nodes(nodes@, parents@, next as nat) == whole,
        decreases nodes@.len(),
    {
        let ghost before = nodes@;
        let i: usize = find_lightest(&nodes);
        let first: (usize, usize) = nodes.remove(i);
        let ghost rest = nodes@;
        let j: usize = find_lightest(&nodes);
        let second: (usize, usize) = nodes.remove(j);
        proof {
            assert(before[i as int] == first);
            assert(rest[j as int] == second);
            assert(rest =~= before.remove(i as int));
            assert forall|k: int| 0 <= k < rest.len() implies (#[trigger] rest[k]).1 < next by {
                assert(rest[k] == before[if k < i {
                    k
                } else {
                    k + 1
                }]);
            }
            assert forall|k: int| 0 <= k < nodes@.len() implies (#[trigger] nodes@[k]).1 < next by {
                assert(nodes@[k] == rest[if k < j {
                    k
                } else {
                    k + 1
                }]);
            }
        }
        if second.0 > usize::MAX - first.0 {
            return None;
        }
        nodes.push((first.0 + second.0, next));
        parents.set(first.1, next);
        parents.set(second.1, next);
        next = next + 1;
    }
    Some(parents)
}

fn depth_of(parents: &[usize], leaf: usize) -> (result: usize)
    requires
        leaf < parents@.len(),
        parents@.len() < 1000,
        forall|i: int|
            0 <= i < parents@.len() ==> #[trigger] parents@[i] == usize::MAX || i < parents@[i]
                < parents@.len(),
    ensures
        result == node_depth(parents@, leaf as nat),
        result <= parents@.len(),
{
    let mut depth: usize = 0;
    let mut node: usize = leaf;
    while parents[node] != usize::MAX
        invariant
            leaf <= node < parents@.len(),
            parents@.len() < 1000,
            depth <= node - leaf,
            forall|i: int|
                0 <= i < parents@.len() ==> #[trigger] parents@[i] == usize::MAX || i < parents@[i]
                    < parents@.len(),
            depth + node_depth(parents@, node as nat) == node_depth(parents@, leaf as nat),
        decreases parents@.len() - node,
    {
        assert(parents@[node as int] == usize::MAX || node < parents@[node as int]
            < parents@.len());
        node = parents[node];
        depth = depth + 1;
    }
    depth
}

fn rank_of(symbols: &[u8], counts: &[usize], i: usize) -> (result: usize)
    requires
        i < symbols@.len() <= 255,
        counts@.len() == 256,
    ensures
        result == frequency_rank(symbols@, counts@, i as int, symbols@.len()),
        result <= symbols@.len(),
{
    let mut rank: usize = 0;
    let mut j: usize = 0;
    while j < symbols.len()
        invariant
            i < symbols@.len() <= 255,
            j <= symbols@.len(),
            counts@.len() == 256,
            rank <= j,
            rank == frequency_rank(symbols@, counts@, i as int, j as nat),
        decreases symbols@.len() - j,
    {
        let a: usize = counts[symbols[j] as usize];
        let b: usize = counts[symbols[i] as usize];
        if a > b || (a == b && symbols[j] < symbols[i]) {
            rank = rank + 1;
        }
        j = j + 1;
    }
    rank
}

/// Chooses flat code lengths.
fn choose_flat_lengths(symbols: &[u8], counts: &[usize]) -> (result: Vec<u8>)
    requires
        2 <= symbols@.len() <= 255,
        counts@.len() == 256,
    ensures
        result@ == flat_lengths(symbols@, counts@),
{
    let log: u32 = ilog2(symbols.len() - 1);
    proof {
        writers::lemma_log2((symbols@.len() - 1) as nat);
        lemma2_to64();
        if log >= 8 {
            if log > 8 {
                lemma_pow2_strictly_increases(8, log as nat);
            }
            assert(false);
        }
    }
    let long: usize = log as usize + 1;
    let short_count: usize = power_of_two(long) - symbols.len();
    let mut lengths: Vec<u8> = Vec::new();
    let mut i: usize = 0;
    while i < symbols.len()
        invariant
            i <= symbols@.len() <= 255,
            counts@.len() == 256,
            long == writers::log2((symbols@.len() - 1) as nat) + 1,
            long <= 8,
            short_count == pow2(long as nat) - symbols@.len(),
            lengths@ =~= flat_lengths(symbols@, counts@).subrange(0, i as int),
        decreases symbols@.len() - i,
    {
        if rank_of(symbols, counts, i) < short_count {
            lengths.push((long - 1) as u8);
        } else {
            lengths.push(long as u8);
        }
        i = i + 1;
    }
    assert(lengths@ =~= flat_lengths(symbols@, counts@));
    lengths
}

/// Chooses code lengths of at most eleven bits for symbols and their
/// frequencies.
pub fn huffman_code_lengths(symbols: &[u8], frequencies: &[usize]) -> (result: Option<Vec<u8>>)
    requires
        frequencies@.len() == 256,
    ensures
        match code_lengths(symbols@, frequencies@) {
            None => result is None,
            Some(lengths) => result matches Some(r) && r@ == lengths,
        },
{
    if symbols.len() < 2 || symbols.len() > 255 {
        return None;
    }
    let leaf_count: usize = symbols.len();
    let mut nodes: Vec<(usize, usize)> = Vec::new();
    let mut parents: Vec<usize> = Vec::new();
    while nodes.len() < leaf_count
        invariant
            nodes@.len() <= leaf_count,
            leaf_count == symbols@.len(),
            leaf_count <= 255,
            frequencies@.len() == 256,
            nodes@ =~= leaves(symbols@, frequencies@).subrange(0, nodes@.len() as int),
        decreases leaf_count - nodes@.len(),
    {
        let i: usize = nodes.len();
        nodes.push((frequencies[symbols[i] as usize], i));
    }
    while parents.len() < leaf_count * 2 - 1
        invariant
            parents@.len() <= leaf_count * 2 - 1,
            leaf_count <= 255,
            forall|i: int| 0 <= i < parents@.len() ==> parents@[i] == usize::MAX,
        decreases leaf_count * 2 - 1 - parents@.len(),
    {
        parents.push(usize::MAX);
    }
    proof {
        assert(nodes@ =~= leaves(symbols@, frequencies@));
        assert(parents@ =~= no_parents(symbols@.len()));
    }
    let parents: Vec<usize> = match build_parents(nodes, parents, leaf_count) {
        Some(parents) => parents,
        None => return None,
    };
    let mut lengths: Vec<u8> = Vec::new();
    let mut i: usize = 0;
    while i < leaf_count
        invariant
            i <= leaf_count,
            leaf_count == symbols@.len(),
            2 <= leaf_count <= 255,
            frequencies@.len() == 256,
            parents@.len() == 2 * leaf_count - 1,
            forall|k: int|
                0 <= k < parents@.len() ==> #[trigger] parents@[k] == usize::MAX || k < parents@[k]
                    < parents@.len(),
            join_nodes(
                leaves(symbols@, frequencies@),
                no_parents(symbols@.len()),
                symbols@.len(),
            ) == Some(parents@),
            lengths@.len() == i,
            forall|k: nat| k < i ==> #[trigger] node_depth(parents@, k) <= 11,
            forall|k: int| 0 <= k < i ==> lengths@[k] == node_depth(parents@, k as nat) as u8,
        decreases leaf_count - i,
    {
        let depth: usize = depth_of(&parents, i);
        if depth > 11 {
            assert(node_depth(parents@, i as nat) > 11);
            return Some(choose_flat_lengths(symbols, frequencies));
        }
        lengths.push(depth as u8);
        i = i + 1;
    }
    assert(lengths@ =~= code_lengths(symbols@, frequencies@)->0);
    Some(lengths)
}

// ---------------------------------------------------------------------------
// Headers
// ---------------------------------------------------------------------------

/// The longest of the first `n` code lengths.
pub open spec fn longest(lengths: Seq<u8>, n: nat) -> u8
    decreases n,
{
    if n == 0 {
        0
    } else {
        let before = longest(lengths, (n - 1) as nat);
        if lengths[n - 1] > before {
            lengths[n - 1]
        } else {
            before
        }
    }
}

/// How many bits the header spends on each code length.
pub open spec fn length_width(maximum: nat) -> nat {
    if maximum <= 1 {
        0
    } else {
        writers::log2((maximum - 1) as nat) + 1
    }
}

/// The first `n` symbols with their code lengths.
pub open spec fn listed_bits(symbols: Seq<u8>, lengths: Seq<u8>, width: nat, n: nat) -> Seq<bool>
    decreases n,
{
    if n == 0 {
        seq![]
    } else {
        listed_bits(symbols, lengths, width, (n - 1) as nat) + (bits::value_bits(
            symbols[n - 1] as nat,
            8,
        ) + bits::value_bits((lengths[n - 1] - 1) as nat, width))
    }
}

/// The header that lists every symbol and its code length.
pub open spec fn sparse_bits(symbols: Seq<u8>, lengths: Seq<u8>) -> Seq<bool> {
    let width = length_width(longest(lengths, lengths.len()) as nat);
    bits::value_bits(0, 2) + bits::value_bits(symbols.len(), 8) + bits::value_bits(width, 3)
        + listed_bits(symbols, lengths, width, symbols.len())
}

/// That header's bytes, if the symbols and code lengths fit in one.
pub open spec fn sparse_table(symbols: Seq<u8>, lengths: Seq<u8>) -> Option<Seq<u8>> {
    if symbols.len() != lengths.len() || symbols.len() < 2 || symbols.len() > 255
        || !huffman::lengths_in_range(lengths) {
        None
    } else {
        Some(bits::msb_pack(sparse_bits(symbols, lengths)))
    }
}

proof fn lemma_longest(lengths: Seq<u8>, n: nat)
    requires
        n <= lengths.len(),
        huffman::lengths_in_range(lengths),
    ensures
        longest(lengths, n) <= 11,
        n > 0 ==> longest(lengths, n) >= 1,
        forall|i: int| 0 <= i < n ==> #[trigger] lengths[i] <= longest(lengths, n),
    decreases n,
{
    if n > 0 {
        lemma_longest(lengths, (n - 1) as nat);
    }
}

/// Every code length fits in the bits that the header spends on it.
pub proof fn lemma_length_width(lengths: Seq<u8>, i: int)
    requires
        huffman::lengths_in_range(lengths),
        0 <= i < lengths.len(),
    ensures
        length_width(longest(lengths, lengths.len()) as nat) <= 4,
        lengths[i] - 1 < pow2(length_width(longest(lengths, lengths.len()) as nat)),
{
    lemma_longest(lengths, lengths.len());
    let maximum = longest(lengths, lengths.len()) as nat;
    lemma2_to64();
    if maximum > 1 {
        writers::lemma_log2((maximum - 1) as nat);
        let log = writers::log2((maximum - 1) as nat);
        if log >= 4 {
            if log > 4 {
                lemma_pow2_strictly_increases(4, log);
            }
            assert(false);
        }
    }
}

/// Writes the header that lists every symbol and its code length.
fn encode_sparse_huffman_table(symbols: &[u8], lengths: &[u8]) -> (result: Option<Vec<u8>>)
    ensures
        match sparse_table(symbols@, lengths@) {
            None => result is None,
            Some(bytes) => result matches Some(r) && r@ == bytes && bytes.len() <= 4096,
        },
{
    if symbols.len() != lengths.len() || symbols.len() < 2 || symbols.len() > 255 {
        return None;
    }
    let mut maximum: u8 = 0;
    let mut i: usize = 0;
    while i < lengths.len()
        invariant
            i <= lengths@.len(),
            symbols@.len() == lengths@.len(),
            maximum == longest(lengths@, i as nat),
            forall|k: int| 0 <= k < i ==> 1 <= #[trigger] lengths@[k] <= 11,
        decreases lengths@.len() - i,
    {
        if lengths[i] < 1 || lengths[i] > 11 {
            return None;
        }
        if lengths[i] > maximum {
            maximum = lengths[i];
        }
        i = i + 1;
    }
    proof {
        lemma_longest(lengths@, lengths@.len());
        lemma_length_width(lengths@, 0);
    }
    let width: u32 = if maximum == 1 {
        0
    } else {
        ilog2(maximum as usize - 1) + 1
    };
    let mut writer: MsbBits = MsbBits::new();
    writer.push_value(0, 2);
    proof {
        bits::lemma_value_bits_len(0, 2);
        bits::lemma_value_bits_len(symbols@.len(), 8);
        bits::lemma_value_bits_len(width as nat, 3);
    }
    writer.push_value(symbols.len() as u32, 8);
    writer.push_value(width, 3);
    let ghost start = writer.bits();
    proof {
        assert(start =~= bits::value_bits(0, 2) + bits::value_bits(symbols@.len(), 8)
            + bits::value_bits(width as nat, 3));
        assert(start + listed_bits(symbols@, lengths@, width as nat, 0) =~= start);
    }
    let mut n: usize = 0;
    while n < symbols.len()
        invariant
            n <= symbols@.len() <= 255,
            symbols@.len() == lengths@.len(),
            width <= 4,
            writer.wf(),
            start.len() == 13,
            writer.bits() == start + listed_bits(symbols@, lengths@, width as nat, n as nat),
            writer.bits().len() == 13 + n * (8 + width),
            huffman::lengths_in_range(lengths@),
        decreases symbols@.len() - n,
    {
        proof {
            bits::lemma_value_bits_len(symbols@[n as int] as nat, 8);
            bits::lemma_value_bits_len((lengths@[n as int] - 1) as nat, width as nat);
            assert(n * (8 + width) <= 255 * 12) by (nonlinear_arith)
                requires
                    n <= 255,
                    width <= 4,
            ;
            assert((n + 1) * (8 + width) == n * (8 + width) + (8 + width)) by (nonlinear_arith);
        }
        writer.push_value(symbols[n] as u32, 8);
        writer.push_value((lengths[n] - 1) as u32, width);
        n = n + 1;
        assert(writer.bits() =~= start + listed_bits(symbols@, lengths@, width as nat, n as nat));
    }
    assert(writer.bits() =~= sparse_bits(symbols@, lengths@));
    assert(n * (8 + width) <= 255 * 12) by (nonlinear_arith)
        requires
            n <= 255,
            width <= 4,
    ;
    Some(writer.finish())
}

/// The bits that name the first symbol of a run: its tier in unary around
/// fixed bits, then its offset in the tier.
pub open spec fn start_bits(start: nat, leading: nat, delimiter: Seq<bool>) -> Seq<bool> {
    let tier = writers::log2(start + 1);
    ones(leading) + bits::zeroes((tier - 1) as nat) + delimiter + bits::value_bits(
        (start + 1 - pow2(tier)) as nat,
        tier,
    )
}

/// `n` one bits.
pub open spec fn ones(n: nat) -> Seq<bool> {
    Seq::new(n, |i: int| true)
}

/// The fixed bits between tier and offset in the header of five symbols.
pub open spec fn five_delimiter() -> Seq<bool> {
    bits::value_bits(0b111_0101_1101, 11)
}

/// The header of a code over consecutive symbols whose lengths differ by at
/// most one. There is one for some alphabet sizes only.
pub open spec fn contiguous_header(alphabet_size: u8, start: u8) -> Seq<u8> {
    if start == 0 {
        if alphabet_size == 5 {
            seq![0xa0u8, 0x40u8, 0x4bu8, 0xebu8, 0xa0u8]
        } else if alphabet_size == 8 {
            seq![0x90u8, 0x70u8, 0x08u8, 0x95u8, 0xffu8, 0xe0u8]
        } else if alphabet_size == 16 {
            seq![0x80u8, 0xf0u8, 0x00u8, 0x82u8, 0x22u8, 0xabu8, 0xfeu8]
        } else if alphabet_size == 32 {
            seq![0x81u8, 0xf0u8, 0x01u8, 0x11u8, 0x55u8, 0xffu8, 0xffu8, 0xffu8, 0x80u8]
        } else if alphabet_size == 64 {
            seq![
                0x83u8, 0xf0u8, 0x02u8, 0x2au8, 0xffu8, 0xffu8, 0xffu8, 0xffu8, 0xffu8, 0xffu8,
                0xffu8, 0xf0u8,
            ]
        } else if alphabet_size == 128 {
            seq![
                0x87u8, 0xf0u8, 0x05u8, 0x7fu8, 0xffu8, 0xffu8, 0xffu8, 0xffu8, 0xffu8, 0xffu8,
                0xffu8, 0xffu8, 0xffu8, 0xffu8, 0xffu8, 0xffu8, 0xffu8, 0xffu8, 0xfeu8,
            ]
        } else {
            seq![]
        }
    } else if alphabet_size == 5 {
        seq![0xa0u8, 0x42u8, 0x4bu8] + bits::msb_pack(
            start_bits(start as nat, 1, five_delimiter()),
        )
    } else if alphabet_size == 8 {
        seq![0x90u8, 0x71u8, 0x08u8, 0x95u8] + bits::msb_pack(start_bits(start as nat, 3, ones(9)))
    } else if alphabet_size == 16 {
        seq![0x80u8, 0xf0u8, 0x80u8, 0x82u8, 0x22u8, 0xabu8] + bits::msb_pack(
            start_bits(start as nat, 7, ones(1)),
        )
    } else {
        seq![]
    }
}

fn push_ones(writer: &mut MsbBits, count: usize)
    requires
        old(writer).wf(),
        old(writer).bits().len() + count < usize::MAX - 8,
    ensures
        final(writer).wf(),
        final(writer).bits() == old(writer).bits() + ones(count as nat),
{
    let ghost start = writer.bits();
    let mut i: usize = 0;
    assert(start + ones(0) =~= start);
    while i < count
        invariant
            i <= count,
            writer.wf(),
            start.len() + count < usize::MAX - 8,
            writer.bits() == start + ones(i as nat),
        decreases count - i,
    {
        writer.push_bit(true);
        i = i + 1;
        assert(writer.bits() =~= start + ones(i as nat));
    }
}

/// Appends the bits that name the first symbol of a run, padded to bytes.
fn append_new_huffman_start_code(
    output: &mut Vec<u8>,
    start: u8,
    leading: usize,
    delimiter: u32,
    delimiter_len: u32,
)
    requires
        start > 0,
        leading <= 8,
        delimiter_len <= 16,
    ensures
        final(output)@ == old(output)@ + bits::msb_pack(
            start_bits(
                start as nat,
                leading as nat,
                bits::value_bits(delimiter as nat, delimiter_len as nat),
            ),
        ),
{
    let tier: u32 = ilog2(start as usize + 1);
    proof {
        writers::lemma_log2((start + 1) as nat);
        lemma2_to64();
        if tier == 0 {
            assert(false);
        }
        if tier > 8 {
            lemma_pow2_strictly_increases(8, tier as nat);
            assert(false);
        }
        bits::lemma_value_bits_len(delimiter as nat, delimiter_len as nat);
    }
    let base: usize = power_of_two(tier as usize) - 1;
    let delta: usize = start as usize - base;
    let mut writer: MsbBits = MsbBits::new();
    push_ones(&mut writer, leading);
    writer.push_zeroes(tier - 1);
    writer.push_value(delimiter, delimiter_len);
    writer.push_value(delta as u32, tier);
    proof {
        assert(writer.bits() =~= start_bits(
            start as nat,
            leading as nat,
            bits::value_bits(delimiter as nat, delimiter_len as nat),
        ));
    }
    let bytes: Vec<u8> = writer.finish();
    append(output, &bytes);
}

proof fn lemma_ones(n: nat, value: nat)
    requires
        value + 1 == pow2(n),
    ensures
        bits::value_bits(value, n) =~= ones(n),
    decreases n,
{
    lemma2_to64();
    if n > 0 {
        lemma_pow2_unfold(n);
        lemma_ones((n - 1) as nat, value / 2);
    }
}

/// Writes the header of a code over consecutive symbols.
pub fn encode_contiguous_new_huffman_header(alphabet_size: u8, start: u8) -> (result: Vec<u8>)
    ensures
        result@ == contiguous_header(alphabet_size, start),
{
    if start == 0 {
        return if alphabet_size == 5 {
            vec![0xa0, 0x40, 0x4b, 0xeb, 0xa0]
        } else if alphabet_size == 8 {
            vec![0x90, 0x70, 0x08, 0x95, 0xff, 0xe0]
        } else if alphabet_size == 16 {
            vec![0x80, 0xf0, 0x00, 0x82, 0x22, 0xab, 0xfe]
        } else if alphabet_size == 32 {
            vec![0x81, 0xf0, 0x01, 0x11, 0x55, 0xff, 0xff, 0xff, 0x80]
        } else if alphabet_size == 64 {
            vec![0x83, 0xf0, 0x02, 0x2a, 0xff, 0xff, 0xff, 0xff, 0xff, 0xff, 0xff, 0xf0]
        } else if alphabet_size == 128 {
            vec![
                0x87, 0xf0, 0x05, 0x7f, 0xff, 0xff, 0xff, 0xff, 0xff, 0xff, 0xff, 0xff, 0xff, 0xff,
                0xff, 0xff, 0xff, 0xff, 0xfe,
            ]
        } else {
            Vec::new()
        };
    }
    proof {
        lemma2_to64();
        lemma_ones(9, 0x1ff);
        lemma_ones(1, 1);
    }
    if alphabet_size == 5 {
        let mut output: Vec<u8> = vec![0xa0, 0x42, 0x4b];
        append_new_huffman_start_code(&mut output, start, 1, 0b111_0101_1101, 11);
        output
    } else if alphabet_size == 8 {
        let mut output: Vec<u8> = vec![0x90, 0x71, 0x08, 0x95];
        append_new_huffman_start_code(&mut output, start, 3, 0x1ff, 9);
        output
    } else if alphabet_size == 16 {
        let mut output: Vec<u8> = vec![0x80, 0xf0, 0x80, 0x82, 0x22, 0xab];
        append_new_huffman_start_code(&mut output, start, 7, 1, 1);
        output
    } else {
        Vec::new()
    }
}

/// The smallest alphabet size that spans the symbols.
pub open spec fn alphabet_for(span: nat) -> Option<u8> {
    if span <= 5 {
        Some(5u8)
    } else if span <= 8 {
        Some(8u8)
    } else if span <= 16 {
        Some(16u8)
    } else if span <= 32 {
        Some(32u8)
    } else if span <= 64 {
        Some(64u8)
    } else if span <= 128 {
        Some(128u8)
    } else {
        None
    }
}

/// The header of a code over consecutive symbols that include these, and the
/// codes that it stands for.
#[verifier::opaque]
pub open spec fn compact_table(minimum: u8, maximum: u8) -> Option<
    (Seq<u8>, Seq<(u16, u8, u8)>),
> {
    match alphabet_for((maximum - minimum + 1) as nat) {
        None => None,
        Some(alphabet) => {
            let start = if minimum <= 256 - alphabet {
                minimum
            } else {
                (256 - alphabet) as u8
            };
            let header = contiguous_header(alphabet, start);
            match tables::table_of(tables::new_lengths(bits::msb_bits(header))) {
                None => None,
                Some((entries, size)) => if size == header.len() {
                    Some((header, entries))
                } else {
                    None
                },
            }
        },
    }
}

proof fn lemma_contiguous_len(alphabet_size: u8, start: u8)
    ensures
        contiguous_header(alphabet_size, start).len() <= 32,
{
    if start > 0 {
        let tier = writers::log2((start + 1) as nat);
        writers::lemma_log2((start + 1) as nat);
        lemma2_to64();
        if tier == 0 {
            assert(false);
        }
        if tier > 8 {
            lemma_pow2_strictly_increases(8, tier);
            assert(false);
        }
        bits::lemma_value_bits_len(0b111_0101_1101, 11);
        bits::lemma_value_bits_len((start + 1 - pow2(tier)) as nat, tier);
    }
}

/// Finds the header of a code over consecutive symbols that include these,
/// and its codes.
fn find_compact_table(minimum: u8, maximum: u8) -> (result: Option<(Vec<u8>, OldHuffmanTable)>)
    requires
        minimum <= maximum,
    ensures
        match compact_table(minimum, maximum) {
            None => result is None,
            Some((header, entries)) => result matches Some(r) && r.0@ == header && r.1.entries@
                == entries && header.len() <= 32 && codes_in_range(entries),
        },
{
    reveal(compact_table);
    let span: usize = maximum as usize - minimum as usize + 1;
    let alphabet: u8 = if span <= 5 {
        5
    } else if span <= 8 {
        8
    } else if span <= 16 {
        16
    } else if span <= 32 {
        32
    } else if span <= 64 {
        64
    } else if span <= 128 {
        128
    } else {
        return None;
    };
    let start: u8 = if minimum as usize <= 256 - alphabet as usize {
        minimum
    } else {
        (256 - alphabet as usize) as u8
    };
    let header: Vec<u8> = encode_contiguous_new_huffman_header(alphabet, start);
    proof {
        lemma_contiguous_len(alphabet, start);
        huffman_codes::lemma_table_of_range(tables::new_lengths(bits::msb_bits(header@)));
    }
    match decode_new_huffman_table(&header) {
        None => None,
        Some((table, size)) => if size == header.len() {
            Some((header, table))
        } else {
            None
        },
    }
}

// ---------------------------------------------------------------------------
// Streams
// ---------------------------------------------------------------------------

/// The code of a symbol and its length.
pub open spec fn code_of(entries: Seq<(u16, u8, u8)>, symbol: u8) -> Option<(u16, u8)>
    decreases entries.len(),
{
    if entries.len() == 0 {
        None
    } else if entries.last().2 == symbol {
        Some((entries.last().0, entries.last().1))
    } else {
        code_of(entries.drop_last(), symbol)
    }
}

/// Every byte has a code.
pub open spec fn all_coded(entries: Seq<(u16, u8, u8)>, input: Seq<u8>) -> bool {
    forall|i: int| 0 <= i < input.len() ==> code_of(entries, #[trigger] input[i]) is Some
}

/// The codes of every third byte, those whose turn it is.
pub open spec fn turn_bits(entries: Seq<(u16, u8, u8)>, input: Seq<u8>, turn: int) -> Seq<bool>
    decreases input.len(),
{
    if input.len() == 0 {
        seq![]
    } else {
        let before = turn_bits(entries, input.drop_last(), turn);
        if (input.len() - 1) % 3 == turn {
            match code_of(entries, input.last()) {
                None => before,
                Some(code) => before + bits::code_bits(code.0 as nat, code.1 as nat),
            }
        } else {
            before
        }
    }
}

/// How many bytes the three streams take, and the length of the first.
pub open spec fn streams_len(entries: Seq<(u16, u8, u8)>, input: Seq<u8>) -> nat {
    2 + bits::bytes_for(turn_bits(entries, input, 0).len()) + bits::bytes_for(
        turn_bits(entries, input, 1).len(),
    ) + bits::bytes_for(turn_bits(entries, input, 2).len())
}

/// A 16-bit number, low byte first.
pub open spec fn le16_bytes(value: nat) -> Seq<u8> {
    seq![(value % 256) as u8, (value / 256) as u8]
}

/// The three streams: the first by itself, the other two back to back.
pub open spec fn stream_bytes(entries: Seq<(u16, u8, u8)>, input: Seq<u8>) -> Seq<u8> {
    let first = bits::lsb_pack(turn_bits(entries, input, 0));
    le16_bytes(first.len()) + first + (bits::lsb_pack(turn_bits(entries, input, 2))
        + bits::lsb_pack(turn_bits(entries, input, 1)).reverse())
}

/// Header and streams, if the first stream's length fits.
pub open spec fn coded_payload(table: Seq<u8>, entries: Seq<(u16, u8, u8)>, input: Seq<u8>) -> Option<
    Seq<u8>,
> {
    if bits::bytes_for(turn_bits(entries, input, 0).len()) > 0xffff {
        None
    } else {
        Some(table + stream_bytes(entries, input))
    }
}

/// The payload with the header that gives the fewest bytes.
pub open spec fn huffman_payload(input: Seq<u8>, symbols: Seq<u8>, lengths: Seq<u8>) -> Option<
    Seq<u8>,
> {
    match huffman::canonical_table(symbols, lengths) {
        None => None,
        Some(entries) => match sparse_table(symbols, lengths) {
            None => None,
            Some(table) => if !all_coded(entries, input) {
                None
            } else {
                match compact_table(symbols.first(), symbols.last()) {
                    None => coded_payload(table, entries, input),
                    Some((compact, compact_entries)) => if !all_coded(compact_entries, input) {
                        None
                    } else if streams_len(compact_entries, input) + compact.len() < streams_len(
                        entries,
                        input,
                    ) + table.len() {
                        coded_payload(compact, compact_entries, input)
                    } else {
                        coded_payload(table, entries, input)
                    },
                }
            },
        },
    }
}

/// The Huffman-coded array of some bytes.
pub open spec fn huffman_array(input: Seq<u8>) -> Option<Seq<u8>> {
    let symbols = used_symbols(frequencies(input), 256);
    if symbols.len() == 1 {
        envelope(3, seq![symbols[0]], input.len())
    } else {
        match code_lengths(symbols, frequencies(input)) {
            None => None,
            Some(lengths) => match huffman_payload(input, symbols, lengths) {
                None => None,
                Some(payload) => envelope(2, payload, input.len()),
            },
        }
    }
}

/// Codes have at most eleven bits.
pub open spec fn codes_in_range(entries: Seq<(u16, u8, u8)>) -> bool {
    forall|i: int| 0 <= i < entries.len() ==> 1 <= (#[trigger] entries[i]).1 <= 11
}

proof fn lemma_code_of_range(entries: Seq<(u16, u8, u8)>, symbol: u8)
    requires
        codes_in_range(entries),
    ensures
        code_of(entries, symbol) matches Some(code) ==> 1 <= code.1 <= 11,
    decreases entries.len(),
{
    if entries.len() > 0 && entries.last().2 != symbol {
        assert forall|i: int| 0 <= i < entries.drop_last().len() implies 1 <= (
        #[trigger] entries.drop_last()[i]).1 <= 11 by {
            assert(entries.drop_last()[i] == entries[i]);
        }
        lemma_code_of_range(entries.drop_last(), symbol);
    }
}

proof fn lemma_turn_bits_len(entries: Seq<(u16, u8, u8)>, input: Seq<u8>, turn: int)
    requires
        codes_in_range(entries),
    ensures
        turn_bits(entries, input, turn).len() <= 11 * input.len(),
    decreases input.len(),
{
    if input.len() > 0 {
        lemma_turn_bits_len(entries, input.drop_last(), turn);
        lemma_code_of_range(entries, input.last());
        match code_of(entries, input.last()) {
            None => {},
            Some(code) => {
                bits::lemma_code_bits_len(code.0 as nat, code.1 as nat);
            },
        }
    }
}

/// The code of every byte, by the byte.
fn code_table(table: &OldHuffmanTable) -> (result: Vec<Option<(u16, u8)>>)
    ensures
        result@.len() == 256,
        forall|b: int|
            0 <= b < 256 ==> #[trigger] result@[b] == code_of(table.entries@, b as u8),
{
    let mut codes: Vec<Option<(u16, u8)>> = Vec::new();
    while codes.len() < 256
        invariant
            codes@.len() <= 256,
            forall|b: int| 0 <= b < codes@.len() ==> codes@[b] is None,
        decreases 256 - codes@.len(),
    {
        codes.push(None);
    }
    let mut i: usize = 0;
    while i < table.entries.len()
        invariant
            i <= table.entries@.len(),
            codes@.len() == 256,
            forall|b: int|
                0 <= b < 256 ==> #[trigger] codes@[b] == code_of(
                    table.entries@.subrange(0, i as int),
                    b as u8,
                ),
        decreases table.entries@.len() - i,
    {
        let entry: (u16, u8, u8) = table.entries[i];
        codes.set(entry.2 as usize, Some((entry.0, entry.1)));
        i = i + 1;
        proof {
            assert(table.entries@.subrange(0, i as int).drop_last() =~= table.entries@.subrange(
                0,
                i - 1,
            ));
        }
    }
    assert(table.entries@.subrange(0, table.entries@.len() as int) =~= table.entries@);
    codes
}

/// Counts the bytes that the three streams take.
fn huffman_payload_cost(input: &[u8], table: &OldHuffmanTable) -> (result: Option<usize>)
    requires
        codes_in_range(table.entries@),
        input@.len() <= 0x3_ffff,
    ensures
        match result {
            None => !all_coded(table.entries@, input@),
            Some(cost) => all_coded(table.entries@, input@) && cost == streams_len(
                table.entries@,
                input@,
            ) && cost <= 0x10_0000 * 3,
        },
{
    let codes: Vec<Option<(u16, u8)>> = code_table(table);
    let mut first: usize = 0;
    let mut second: usize = 0;
    let mut third: usize = 0;
    let mut i: usize = 0;
    let ghost entries = table.entries@;
    assert(input@.subrange(0, 0) =~= Seq::<u8>::empty());
    while i < input.len()
        invariant
            i <= input@.len() <= 0x3_ffff,
            entries == table.entries@,
            codes_in_range(entries),
            codes@.len() == 256,
            forall|b: int| 0 <= b < 256 ==> #[trigger] codes@[b] == code_of(entries, b as u8),
            forall|k: int| 0 <= k < i ==> code_of(entries, #[trigger] input@[k]) is Some,
            first == turn_bits(entries, input@.subrange(0, i as int), 0).len(),
            second == turn_bits(entries, input@.subrange(0, i as int), 1).len(),
            third == turn_bits(entries, input@.subrange(0, i as int), 2).len(),
            first <= 11 * i,
            second <= 11 * i,
            third <= 11 * i,
        decreases input@.len() - i,
    {
        proof {
            assert(input@.subrange(0, i + 1).drop_last() =~= input@.subrange(0, i as int));
            assert(codes@[input@[i as int] as int] == code_of(entries, input@[i as int]));
            lemma_code_of_range(entries, input@[i as int]);
        }
        let code: (u16, u8) = match codes[input[i] as usize] {
            None => return None,
            Some(code) => code,
        };
        proof {
            bits::lemma_code_bits_len(code.0 as nat, code.1 as nat);
        }
        if i % 3 == 0 {
            first = first + code.1 as usize;
        } else if i % 3 == 1 {
            second = second + code.1 as usize;
        } else {
            third = third + code.1 as usize;
        }
        i = i + 1;
    }
    assert(input@.subrange(0, input@.len() as int) =~= input@);
    Some(2 + ceil_bytes(first) + ceil_bytes(second) + ceil_bytes(third))
}

/// Writes header and streams.
fn encode_streams(header: &[u8], table: &OldHuffmanTable, input: &[u8]) -> (result: Option<Vec<u8>>)
    requires
        codes_in_range(table.entries@),
        all_coded(table.entries@, input@),
        input@.len() <= 0x3_ffff,
    ensures
        match coded_payload(header@, table.entries@, input@) {
            None => result is None,
            Some(bytes) => result matches Some(r) && r@ == bytes,
        },
{
    let codes: Vec<Option<(u16, u8)>> = code_table(table);
    let mut first: LsbWriter = LsbWriter::with_capacity(input.len());
    let mut second: LsbWriter = LsbWriter::with_capacity(input.len());
    let mut backward: LsbWriter = LsbWriter::with_capacity(input.len());
    let mut i: usize = 0;
    let ghost entries = table.entries@;
    assert(input@.subrange(0, 0) =~= Seq::<u8>::empty());
    while i < input.len()
        invariant
            i <= input@.len() <= 0x3_ffff,
            entries == table.entries@,
            codes_in_range(entries),
            all_coded(entries, input@),
            codes@.len() == 256,
            forall|b: int| 0 <= b < 256 ==> #[trigger] codes@[b] == code_of(entries, b as u8),
            first.wf(),
            second.wf(),
            backward.wf(),
            first.bits() == turn_bits(entries, input@.subrange(0, i as int), 0),
            backward.bits() == turn_bits(entries, input@.subrange(0, i as int), 1),
            second.bits() == turn_bits(entries, input@.subrange(0, i as int), 2),
        decreases input@.len() - i,
    {
        proof {
            assert(input@.subrange(0, i + 1).drop_last() =~= input@.subrange(0, i as int));
            assert(codes@[input@[i as int] as int] == code_of(entries, input@[i as int]));
            lemma_code_of_range(entries, input@[i as int]);
            lemma_turn_bits_len(entries, input@.subrange(0, i as int), 0);
            lemma_turn_bits_len(entries, input@.subrange(0, i as int), 1);
            lemma_turn_bits_len(entries, input@.subrange(0, i as int), 2);
        }
        let code: (u16, u8) = match codes[input[i] as usize] {
            None => return None,
            Some(code) => code,
        };
        if i % 3 == 0 {
            first.push(code.0, code.1);
        } else if i % 3 == 1 {
            backward.push(code.0, code.1);
        } else {
            second.push(code.0, code.1);
        }
        i = i + 1;
    }
    assert(input@.subrange(0, input@.len() as int) =~= input@);
    let first: Vec<u8> = first.finish();
    let second: Vec<u8> = second.finish();
    let backward: Vec<u8> = backward.finish();
    if first.len() > 0xffff {
        return None;
    }
    let mut payload: Vec<u8> = to_vec(header);
    payload.push((first.len() % 256) as u8);
    payload.push((first.len() / 256) as u8);
    append(&mut payload, &first);
    append(&mut payload, &second);
    append_reversed(&mut payload, &backward);
    assert(payload@ =~= header@ + stream_bytes(entries, input@));
    Some(payload)
}

/// Writes the payload with the header that gives the fewest bytes.
fn encode_huffman_payload(input: &[u8], symbols: &[u8], lengths: &[u8]) -> (result: Option<Vec<u8>>)
    requires
        symbols@.len() > 0,
        symbols@.first() <= symbols@.last(),
        input@.len() <= 0x3_ffff,
    ensures
        match huffman_payload(input@, symbols@, lengths@) {
            None => result is None,
            Some(bytes) => result matches Some(r) && r@ == bytes,
        },
{
    let table: OldHuffmanTable = match canonical_huffman_table(symbols, lengths) {
        None => return None,
        Some(table) => table,
    };
    let header: Vec<u8> = match encode_sparse_huffman_table(symbols, lengths) {
        None => return None,
        Some(header) => header,
    };
    proof {
        huffman_codes::lemma_canonical_range(symbols@, lengths@);
    }
    let cost: usize = match huffman_payload_cost(input, &table) {
        None => return None,
        Some(cost) => cost,
    };
    let compact: (Vec<u8>, OldHuffmanTable) = match find_compact_table(
        symbols[0],
        symbols[symbols.len() - 1],
    ) {
        None => return encode_streams(&header, &table, input),
        Some(compact) => compact,
    };
    let compact_cost: usize = match huffman_payload_cost(input, &compact.1) {
        None => return None,
        Some(cost) => cost,
    };
    if compact_cost + compact.0.len() < cost + header.len() {
        encode_streams(&compact.0, &compact.1, input)
    } else {
        encode_streams(&header, &table, input)
    }
}

/// Writes bytes as a Huffman-coded array, if that makes them fewer.
pub fn encode_huffman_array(input: &[u8]) -> (result: Option<Vec<u8>>)
    ensures
        match huffman_array(input@) {
            None => result is None,
            Some(bytes) => result matches Some(r) && r@ == bytes,
        },
{
    if input.len() > 0x3_ffff {
        return None;
    }
    let counts: Vec<usize> = count_bytes(input);
    let symbols: Vec<u8> = list_used(&counts);
    proof {
        lemma_used_symbols(counts@, 256);
    }
    if symbols.len() == 1 {
        let payload: Vec<u8> = vec![symbols[0]];
        assert(payload@ =~= seq![symbols@[0]]);
        return encode_array_envelope(3, &payload, input.len());
    }
    let lengths: Vec<u8> = match huffman_code_lengths(&symbols, &counts) {
        None => return None,
        Some(lengths) => lengths,
    };
    match encode_huffman_payload(input, &symbols, &lengths) {
        None => None,
        Some(payload) => encode_array_envelope(2, &payload, input.len()),
    }
}

} // verus!
