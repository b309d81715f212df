//! The weights of symbols in a table: how its states are shared out.

use super::tans;
use crate::sequence;
use vstd::arithmetic::div_mod::{lemma_div_is_ordered, lemma_fundamental_div_mod};
use vstd::prelude::*;
use vstd::relations::{sorted_by, total_ordering};
use vstd::seq_lib::lemma_sorted_unique;
use vstd::set_lib::{lemma_int_range, lemma_map_size, lemma_subset_equality, set_int_range};

verus! {

// ---------------------------------------------------------------------------
// Shares
// ---------------------------------------------------------------------------

/// How often the first `n` symbols occur together.
pub open spec fn total_count(symbols: Seq<u8>, counts: Seq<usize>, n: nat) -> nat
    decreases n,
{
    if n == 0 {
        0
    } else {
        total_count(symbols, counts, (n - 1) as nat) + counts[symbols[n - 1] as int] as nat
    }
}

/// How often all symbols occur together.
pub open spec fn total(symbols: Seq<u8>, counts: Seq<usize>) -> nat {
    total_count(symbols, counts, symbols.len())
}

/// A symbol's share of the states that are left once every symbol has one, in
/// parts of the total count.
pub open spec fn scaled(symbols: Seq<u8>, counts: Seq<usize>, size: nat, i: int) -> nat {
    (counts[symbols[i] as int] * (size - symbols.len())) as nat
}

/// The whole states of that share.
pub open spec fn whole_share(symbols: Seq<u8>, counts: Seq<usize>, size: nat, i: int) -> nat {
    scaled(symbols, counts, size, i) / total(symbols, counts)
}

/// What is left of that share.
pub open spec fn share_rest(symbols: Seq<u8>, counts: Seq<usize>, size: nat, i: int) -> nat {
    scaled(symbols, counts, size, i) % total(symbols, counts)
}

/// The states that whole shares give to the first `n` symbols.
pub open spec fn whole_shares(symbols: Seq<u8>, counts: Seq<usize>, size: nat, n: nat) -> nat
    decreases n,
{
    if n == 0 {
        0
    } else {
        whole_shares(symbols, counts, size, (n - 1) as nat) + whole_share(
            symbols,
            counts,
            size,
            n - 1,
        )
    }
}

/// Symbol `k` comes before symbol `i` by what is left of their shares: the one
/// with more left is first, and of two with as much the lower symbol.
pub open spec fn prior(symbols: Seq<u8>, counts: Seq<usize>, size: nat, k: int, i: int) -> bool {
    let a = share_rest(symbols, counts, size, k);
    let b = share_rest(symbols, counts, size, i);
    a > b || (a == b && symbols[k] < symbols[i])
}

/// How many of the first `n` symbols come before symbol `i`.
pub open spec fn rest_rank(symbols: Seq<u8>, counts: Seq<usize>, size: nat, i: int, n: nat) -> nat
    decreases n,
{
    if n == 0 {
        0
    } else {
        rest_rank(symbols, counts, size, i, (n - 1) as nat) + if prior(
            symbols,
            counts,
            size,
            n - 1,
            i,
        ) {
            1nat
        } else {
            0nat
        }
    }
}

/// The states that whole shares leave over.
pub open spec fn left_over(symbols: Seq<u8>, counts: Seq<usize>, size: nat) -> int {
    size - symbols.len() - whole_shares(symbols, counts, size, symbols.len())
}

/// Whether a symbol gets one of the states that are left over.
pub open spec fn favoured(symbols: Seq<u8>, counts: Seq<usize>, size: nat, i: int) -> bool {
    rest_rank(symbols, counts, size, i, symbols.len()) < left_over(symbols, counts, size)
}

/// The weight of a symbol: one state, its whole share, and one more while
/// states are left over.
pub open spec fn symbol_weight(symbols: Seq<u8>, counts: Seq<usize>, size: nat, i: int) -> nat {
    1 + whole_share(symbols, counts, size, i) + if favoured(symbols, counts, size, i) {
        1nat
    } else {
        0nat
    }
}

/// The symbols with their weights.
pub open spec fn weight_pairs(symbols: Seq<u8>, counts: Seq<usize>, size: nat) -> Seq<(u8, usize)> {
    Seq::new(
        symbols.len(),
        |i: int| (symbols[i], symbol_weight(symbols, counts, size, i) as usize),
    )
}

/// The order of weights: by weight, and of as much weight by symbol.
pub open spec fn lighter(a: (u8, usize), b: (u8, usize)) -> bool {
    a.1 < b.1 || (a.1 == b.1 && a.0 <= b.0)
}

/// The weights of the symbols in ascending order.
pub open spec fn normalized(symbols: Seq<u8>, counts: Seq<usize>, size: nat) -> Seq<(u8, usize)> {
    weight_pairs(symbols, counts, size).sort_by(
        |a: (u8, usize), b: (u8, usize)| lighter(a, b),
    )
}

/// The weights, if there is a state for each symbol and the counts are not too
/// large to share out.
pub open spec fn shared_out(symbols: Seq<u8>, counts: Seq<usize>, size: nat) -> Option<
    Seq<(u8, usize)>,
> {
    if size < symbols.len() || total(symbols, counts) > usize::MAX || exists|i: int|
        0 <= i < symbols.len() && #[trigger] scaled(symbols, counts, size, i) > usize::MAX {
        None
    } else {
        Some(normalized(symbols, counts, size))
    }
}

/// Different symbols in ascending order, of which some occur.
pub open spec fn counted(symbols: Seq<u8>, counts: Seq<usize>) -> bool {
    &&& counts.len() == 256
    &&& forall|i: int, j: int| 0 <= i < j < symbols.len() ==> symbols[i] < symbols[j]
    &&& symbols.len() > 0 ==> total(symbols, counts) > 0
}

pub proof fn lemma_counted(symbols: Seq<u8>, counts: Seq<usize>)
    requires
        counts.len() == 256,
        forall|i: int, j: int| 0 <= i < j < symbols.len() ==> symbols[i] < symbols[j],
        symbols.len() > 0 ==> counts[symbols[0] as int] > 0,
    ensures
        counted(symbols, counts),
{
    if symbols.len() > 0 {
        assert(total_count(symbols, counts, 0) == 0);
        lemma_total_count(symbols, counts, 1, symbols.len());
    }
}

// ---------------------------------------------------------------------------
// Sums
// ---------------------------------------------------------------------------

proof fn lemma_total_count(symbols: Seq<u8>, counts: Seq<usize>, n: nat, m: nat)
    requires
        n <= m,
    ensures
        total_count(symbols, counts, n) <= total_count(symbols, counts, m),
    decreases m - n,
{
    if n < m {
        lemma_total_count(symbols, counts, n, (m - 1) as nat);
    }
}

/// What is left of the first `n` shares.
spec fn rests(symbols: Seq<u8>, counts: Seq<usize>, size: nat, n: nat) -> nat
    decreases n,
{
    if n == 0 {
        0
    } else {
        rests(symbols, counts, size, (n - 1) as nat) + share_rest(symbols, counts, size, n - 1)
    }
}

proof fn lemma_share(symbols: Seq<u8>, counts: Seq<usize>, size: nat, i: int)
    requires
        symbols.len() <= size,
        total(symbols, counts) > 0,
    ensures
        scaled(symbols, counts, size, i) == counts[symbols[i] as int] * (size - symbols.len()),
        scaled(symbols, counts, size, i) == total(symbols, counts) * whole_share(
            symbols,
            counts,
            size,
            i,
        ) + share_rest(symbols, counts, size, i),
        share_rest(symbols, counts, size, i) < total(symbols, counts),
{
    let c = counts[symbols[i] as int] as int;
    let free = size - symbols.len();
    assert(c * free >= 0) by (nonlinear_arith)
        requires
            c >= 0,
            free >= 0,
    ;
    lemma_fundamental_div_mod(
        scaled(symbols, counts, size, i) as int,
        total(symbols, counts) as int,
    );
}

/// Whole shares and rests together are what was shared out.
proof fn lemma_shares(symbols: Seq<u8>, counts: Seq<usize>, size: nat, n: nat)
    requires
        symbols.len() <= size,
        total(symbols, counts) > 0,
    ensures
        whole_shares(symbols, counts, size, n) * total(symbols, counts) + rests(
            symbols,
            counts,
            size,
            n,
        ) == total_count(symbols, counts, n) * (size - symbols.len()),
        rests(symbols, counts, size, n) <= n * total(symbols, counts),
    decreases n,
{
    let t = total(symbols, counts) as int;
    let free = size - symbols.len();
    if n == 0 {
        assert(0 * t == 0 && 0 * free == 0) by (nonlinear_arith);
    } else {
        lemma_shares(symbols, counts, size, (n - 1) as nat);
        lemma_share(symbols, counts, size, n - 1);
        let a = whole_shares(symbols, counts, size, (n - 1) as nat) as int;
        let b = whole_share(symbols, counts, size, n - 1) as int;
        let c = total_count(symbols, counts, (n - 1) as nat) as int;
        let d = counts[symbols[n - 1] as int] as int;
        assert((a + b) * t == a * t + t * b) by (nonlinear_arith);
        assert((c + d) * free == c * free + d * free) by (nonlinear_arith);
        assert(n * t == (n - 1) * t + t) by (nonlinear_arith);
    }
}

/// The states that are left over: no more than there are symbols.
proof fn lemma_left_over(symbols: Seq<u8>, counts: Seq<usize>, size: nat)
    requires
        symbols.len() <= size,
        total(symbols, counts) > 0,
    ensures
        0 <= left_over(symbols, counts, size) <= symbols.len(),
{
    let n = symbols.len();
    let t = total(symbols, counts) as int;
    let free = size - n;
    lemma_shares(symbols, counts, size, n);
    let w = whole_shares(symbols, counts, size, n) as int;
    let r = rests(symbols, counts, size, n) as int;
    assert(w <= free && free - w <= n) by (nonlinear_arith)
        requires
            w * t + r == t * free,
            0 <= r <= n * t,
            t > 0,
    ;
}

/// A symbol's whole share is part of all of them.
proof fn lemma_part_of_shares(symbols: Seq<u8>, counts: Seq<usize>, size: nat, i: int, n: nat)
    requires
        0 <= i < n,
    ensures
        whole_share(symbols, counts, size, i) <= whole_shares(symbols, counts, size, n),
    decreases n,
{
    if i < n - 1 {
        lemma_part_of_shares(symbols, counts, size, i, (n - 1) as nat);
    }
}

/// A weight is at least one, and at most the size of the table.
proof fn lemma_weight_bound(symbols: Seq<u8>, counts: Seq<usize>, size: nat, i: int)
    requires
        symbols.len() <= size,
        total(symbols, counts) > 0,
        0 <= i < symbols.len(),
    ensures
        1 <= symbol_weight(symbols, counts, size, i) <= size,
{
    lemma_left_over(symbols, counts, size);
    lemma_part_of_shares(symbols, counts, size, i, symbols.len());
}

// ---------------------------------------------------------------------------
// Ranks
// ---------------------------------------------------------------------------

proof fn lemma_rank_bound(symbols: Seq<u8>, counts: Seq<usize>, size: nat, i: int, n: nat)
    ensures
        rest_rank(symbols, counts, size, i, n) <= n,
        0 <= i < n ==> rest_rank(symbols, counts, size, i, n) < n,
    decreases n,
{
    if n > 0 {
        lemma_rank_bound(symbols, counts, size, i, (n - 1) as nat);
    }
}

/// The symbol that comes first has the lower rank.
proof fn lemma_rank_order(symbols: Seq<u8>, counts: Seq<usize>, size: nat, a: int, b: int, n: nat)
    requires
        prior(symbols, counts, size, a, b),
    ensures
        rest_rank(symbols, counts, size, a, n) <= rest_rank(symbols, counts, size, b, n),
        0 <= a < n ==> rest_rank(symbols, counts, size, a, n) < rest_rank(
            symbols,
            counts,
            size,
            b,
            n,
        ),
    decreases n,
{
    if n > 0 {
        lemma_rank_order(symbols, counts, size, a, b, (n - 1) as nat);
    }
}

/// How many of the first `n` symbols get a state that is left over.
spec fn favours(symbols: Seq<u8>, counts: Seq<usize>, size: nat, n: nat) -> nat
    decreases n,
{
    if n == 0 {
        0
    } else {
        favours(symbols, counts, size, (n - 1) as nat) + if favoured(
            symbols,
            counts,
            size,
            n - 1,
        ) {
            1nat
        } else {
            0nat
        }
    }
}

spec fn favoured_below(symbols: Seq<u8>, counts: Seq<usize>, size: nat, n: nat) -> Set<int> {
    Set::new(|i: int| 0 <= i < n && favoured(symbols, counts, size, i))
}

proof fn lemma_favours(symbols: Seq<u8>, counts: Seq<usize>, size: nat, n: nat)
    ensures
        favoured_below(symbols, counts, size, n).finite(),
        favoured_below(symbols, counts, size, n).len() == favours(symbols, counts, size, n),
    decreases n,
{
    let now = favoured_below(symbols, counts, size, n);
    if n == 0 {
        assert(now =~= Set::empty());
    } else {
        lemma_favours(symbols, counts, size, (n - 1) as nat);
        let before = favoured_below(symbols, counts, size, (n - 1) as nat);
        if favoured(symbols, counts, size, n - 1) {
            assert(now =~= before.insert(n - 1));
            assert(!before.contains(n - 1));
        } else {
            assert(now =~= before);
        }
    }
}

/// All states that are left over are given away, each to another symbol.
proof fn lemma_all_favours(symbols: Seq<u8>, counts: Seq<usize>, size: nat)
    requires
        counted(symbols, counts),
        symbols.len() <= size,
        total(symbols, counts) > 0,
    ensures
        favours(symbols, counts, size, symbols.len()) == left_over(symbols, counts, size),
{
    let n = symbols.len();
    let left = left_over(symbols, counts, size);
    let rank = |i: int| rest_rank(symbols, counts, size, i, n) as int;
    let all = set_int_range(0, n as int);
    lemma_left_over(symbols, counts, size);
    lemma_int_range(0, n as int);
    lemma_int_range(0, left);
    assert forall|a: int, b: int| all.contains(a) && all.contains(b) && a != b implies rank(a)
        != rank(b) by {
        assert(symbols[a] != symbols[b]) by {
            if a < b {
                assert(symbols[a] < symbols[b]);
            } else {
                assert(symbols[b] < symbols[a]);
            }
        }
        if prior(symbols, counts, size, a, b) {
            lemma_rank_order(symbols, counts, size, a, b, n);
        } else {
            assert(prior(symbols, counts, size, b, a));
            lemma_rank_order(symbols, counts, size, b, a, n);
        }
    }
    let image = all.map(rank);
    assert(vstd::relations::injective_on(rank, all));
    lemma_map_size(all, image, rank);
    assert(image.subset_of(all)) by {
        assert forall|r: int| image.contains(r) implies all.contains(r) by {
            let i = choose|i: int| all.contains(i) && rank(i) == r;
            lemma_rank_bound(symbols, counts, size, i, n);
        }
    }
    lemma_subset_equality(image, all);
    let chosen = favoured_below(symbols, counts, size, n);
    lemma_favours(symbols, counts, size, n);
    assert(chosen.map(rank) =~= set_int_range(0, left)) by {
        assert forall|r: int| set_int_range(0, left).contains(r) implies chosen.map(
            rank,
        ).contains(r) by {
            assert(image.contains(r));
            let i = choose|i: int| all.contains(i) && rank(i) == r;
            assert(chosen.contains(i));
        }
        assert forall|r: int| chosen.map(rank).contains(r) implies set_int_range(
            0,
            left,
        ).contains(r) by {
            let i = choose|i: int| chosen.contains(i) && rank(i) == r;
            assert(favoured(symbols, counts, size, i));
        }
    }
    assert(vstd::relations::injective_on(rank, chosen));
    lemma_map_size(chosen, set_int_range(0, left), rank);
}

// ---------------------------------------------------------------------------
// Weights
// ---------------------------------------------------------------------------

proof fn lemma_lighter()
    ensures
        total_ordering(|a: (u8, usize), b: (u8, usize)| lighter(a, b)),
{
}

/// The first `n` weights together.
proof fn lemma_weight_sum(symbols: Seq<u8>, counts: Seq<usize>, size: nat, n: nat)
    requires
        n <= symbols.len() <= size <= usize::MAX,
        total(symbols, counts) > 0,
    ensures
        tans::total_weight(weight_pairs(symbols, counts, size).subrange(0, n as int)) == n
            + whole_shares(symbols, counts, size, n) + favours(symbols, counts, size, n),
    decreases n,
{
    let pairs = weight_pairs(symbols, counts, size);
    if n > 0 {
        lemma_weight_sum(symbols, counts, size, (n - 1) as nat);
        lemma_weight_bound(symbols, counts, size, n - 1);
        assert(pairs.subrange(0, n as int).drop_last() =~= pairs.subrange(0, n - 1));
        assert(pairs.subrange(0, n as int).last() == pairs[n - 1]);
    }
}

proof fn lemma_sum_without(weights: Seq<(u8, usize)>, at: int)
    requires
        0 <= at < weights.len(),
    ensures
        tans::total_weight(weights) == tans::total_weight(weights.remove(at)) + weights[at].1,
    decreases weights.len(),
{
    if at == weights.len() - 1 {
        assert(weights.remove(at) =~= weights.drop_last());
    } else {
        lemma_sum_without(weights.drop_last(), at);
        assert(weights.remove(at).drop_last() =~= weights.drop_last().remove(at));
        assert(weights.remove(at).last() == weights.last());
    }
}

/// The sum of weights does not depend on their order.
proof fn lemma_sum_of_same(a: Seq<(u8, usize)>, b: Seq<(u8, usize)>)
    requires
        a.to_multiset() == b.to_multiset(),
    ensures
        tans::total_weight(a) == tans::total_weight(b),
    decreases a.len(),
{
    a.to_multiset_ensures();
    b.to_multiset_ensures();
    if a.len() > 0 {
        let x = a.last();
        assert(a[a.len() - 1] == x);
        assert(a.contains(x));
        assert(b.to_multiset().count(x) > 0);
        let at = choose|at: int| 0 <= at < b.len() && b[at] == x;
        lemma_sum_without(b, at);
        assert(a.drop_last() =~= a.remove(a.len() - 1));
        lemma_sum_of_same(a.drop_last(), b.remove(at));
    }
}

/// The symbol that occurs more often has no less weight.
proof fn lemma_more_weight(symbols: Seq<u8>, counts: Seq<usize>, size: nat, a: int, b: int)
    requires
        symbols.len() <= size,
        total(symbols, counts) > 0,
        0 <= a < symbols.len(),
        0 <= b < symbols.len(),
        counts[symbols[a] as int] > counts[symbols[b] as int],
    ensures
        symbol_weight(symbols, counts, size, a) >= symbol_weight(symbols, counts, size, b),
{
    let x = counts[symbols[a] as int] as int;
    let y = counts[symbols[b] as int] as int;
    let free = size - symbols.len();
    let t = total(symbols, counts) as int;
    lemma_share(symbols, counts, size, a);
    lemma_share(symbols, counts, size, b);
    assert(x * free >= y * free && (x * free == y * free ==> free == 0)) by (nonlinear_arith)
        requires
            x > y,
            free >= 0,
    ;
    lemma_div_is_ordered(
        scaled(symbols, counts, size, b) as int,
        scaled(symbols, counts, size, a) as int,
        t,
    );
    if whole_share(symbols, counts, size, a) == whole_share(symbols, counts, size, b) {
        if share_rest(symbols, counts, size, a) > share_rest(symbols, counts, size, b) {
            lemma_rank_order(symbols, counts, size, a, b, symbols.len());
        } else {
            assert(free == 0);
            lemma_left_over(symbols, counts, size);
        }
    }
}

/// The weights of a table: each symbol has one, of at least one state; they
/// ascend, and symbols of one weight ascend too; together they fill the table;
/// and a symbol that occurs more often than another has no less weight.
pub proof fn law_normalized(symbols: Seq<u8>, counts: Seq<usize>, size: nat)
    requires
        counted(symbols, counts),
        0 < symbols.len() <= size <= usize::MAX,
    ensures
        ({
            let weights = normalized(symbols, counts, size);
            &&& weights.len() == symbols.len()
            &&& forall|k: int|
                0 <= k < symbols.len() ==> weights.contains(
                    (#[trigger] symbols[k], symbol_weight(symbols, counts, size, k) as usize),
                )
            &&& forall|i: int|
                0 <= i < weights.len() ==> symbols.contains((#[trigger] weights[i]).0) && 1
                    <= weights[i].1 <= size
            &&& forall|i: int, j: int|
                0 <= i < j < weights.len() ==> lighter(#[trigger] weights[i], #[trigger] weights[j])
                    && weights[i].0 != weights[j].0
            &&& tans::total_weight(weights) == size
            &&& forall|i: int, j: int|
                0 <= i < weights.len() && 0 <= j < weights.len() && counts[(
                #[trigger] weights[i]).0 as int] > counts[(#[trigger] weights[j]).0 as int]
                    ==> weights[i].1 >= weights[j].1
        }),
{
    let leq = |a: (u8, usize), b: (u8, usize)| lighter(a, b);
    let pairs = weight_pairs(symbols, counts, size);
    let weights = normalized(symbols, counts, size);
    lemma_lighter();
    pairs.lemma_sort_by_ensures(leq);
    pairs.to_multiset_ensures();
    weights.to_multiset_ensures();
    assert forall|k: int| 0 <= k < symbols.len() implies weights.contains(
        (#[trigger] symbols[k], symbol_weight(symbols, counts, size, k) as usize),
    ) by {
        assert(pairs.contains(pairs[k]));
        assert(weights.to_multiset().count(pairs[k]) > 0);
    }
    assert forall|i: int| 0 <= i < weights.len() implies exists|k: int|
        0 <= k < pairs.len() && #[trigger] pairs[k] == #[trigger] weights[i] by {
        assert(weights.contains(weights[i]));
        assert(pairs.to_multiset().count(weights[i]) > 0);
    }
    assert forall|i: int| 0 <= i < weights.len() implies symbols.contains(
        (#[trigger] weights[i]).0,
    ) && 1 <= weights[i].1 <= size by {
        let k = choose|k: int| 0 <= k < pairs.len() && #[trigger] pairs[k] == weights[i];
        lemma_weight_bound(symbols, counts, size, k);
        assert(symbols[k] == weights[i].0);
    }
    assert(pairs.no_duplicates()) by {
        assert forall|i: int, j: int|
            0 <= i < pairs.len() && 0 <= j < pairs.len() && i != j implies pairs[i] != pairs[j] by {
            if i < j {
                assert(symbols[i] < symbols[j]);
            } else {
                assert(symbols[j] < symbols[i]);
            }
        }
    }
    pairs.lemma_multiset_has_no_duplicates();
    weights.lemma_multiset_has_no_duplicates_conv();
    assert forall|i: int, j: int| 0 <= i < j < weights.len() implies lighter(
        #[trigger] weights[i],
        #[trigger] weights[j],
    ) && weights[i].0 != weights[j].0 by {
        assert(leq(weights[i], weights[j]));
        let a = choose|k: int| 0 <= k < pairs.len() && #[trigger] pairs[k] == weights[i];
        let b = choose|k: int| 0 <= k < pairs.len() && #[trigger] pairs[k] == weights[j];
        assert(weights[i] != weights[j]);
        if a < b {
            assert(symbols[a] < symbols[b]);
        } else if b < a {
            assert(symbols[b] < symbols[a]);
        }
    }
    lemma_weight_sum(symbols, counts, size, symbols.len());
    lemma_all_favours(symbols, counts, size);
    assert(pairs.subrange(0, symbols.len() as int) =~= pairs);
    lemma_sum_of_same(weights, pairs);
    assert forall|i: int, j: int|
        0 <= i < weights.len() && 0 <= j < weights.len() && counts[(
        #[trigger] weights[i]).0 as int] > counts[(
        #[trigger] weights[j]).0 as int] implies weights[i].1 >= weights[j].1 by {
        let a = choose|k: int| 0 <= k < pairs.len() && #[trigger] pairs[k] == weights[i];
        let b = choose|k: int| 0 <= k < pairs.len() && #[trigger] pairs[k] == weights[j];
        lemma_more_weight(symbols, counts, size, a, b);
        lemma_weight_bound(symbols, counts, size, a);
        lemma_weight_bound(symbols, counts, size, b);
    }
}

/// Sorts weights in ascending order.
fn sort_weights(pairs: &[(u8, usize)]) -> (result: Vec<(u8, usize)>)
    ensures
        result@ == pairs@.sort_by(|a: (u8, usize), b: (u8, usize)| lighter(a, b)),
{
    let mut result: Vec<(u8, usize)> = Vec::new();
    let mut i: usize = 0;
    assert(pairs@.subrange(0, 0) =~= result@);
    while i < pairs.len()
        invariant
            i <= pairs@.len(),
            result@.len() == i,
            result@.to_multiset() == pairs@.subrange(0, i as int).to_multiset(),
            forall|a: int, b: int|
                0 <= a <= b < result@.len() ==> lighter(#[trigger] result@[a], #[trigger] result@[b]),
        decreases pairs@.len() - i,
    {
        let pair: (u8, usize) = pairs[i];
        let mut at: usize = i;
        while at > 0 && (result[at - 1].1 > pair.1 || (result[at - 1].1 == pair.1 && result[at
            - 1].0 > pair.0))
            invariant
                at <= i,
                result@.len() == i,
                forall|a: int, b: int|
                    0 <= a <= b < result@.len() ==> lighter(
                        #[trigger] result@[a],
                        #[trigger] result@[b],
                    ),
                forall|a: int| at <= a < i ==> !lighter(#[trigger] result@[a], pair),
            decreases at,
        {
            at = at - 1;
        }
        let ghost before = result@;
        proof {
            sequence::lemma_insert_multiset(result@, at as int, pair);
            pairs@.subrange(0, i as int).to_multiset_ensures();
            assert(pairs@.subrange(0, i + 1) =~= pairs@.subrange(0, i as int).push(pair));
        }
        result.insert(at, pair);
        proof {
            assert forall|a: int, b: int| 0 <= a <= b < result@.len() implies lighter(
                #[trigger] result@[a],
                #[trigger] result@[b],
            ) by {
                let old_a = if a < at {
                    a
                } else {
                    a - 1
                };
                let old_b = if b < at {
                    b
                } else {
                    b - 1
                };
                if a != at {
                    assert(result@[a] == before[old_a]);
                }
                if b != at {
                    assert(result@[b] == before[old_b]);
                }
                if a == at && b > at {
                    assert(!lighter(before[old_b], pair));
                }
                if b == at && a < at {
                    assert(lighter(before[old_a], before[at - 1]));
                }
            }
        }
        i = i + 1;
    }
    proof {
        let leq = |a: (u8, usize), b: (u8, usize)| lighter(a, b);
        assert(pairs@.subrange(0, pairs@.len() as int) =~= pairs@);
        lemma_lighter();
        pairs@.lemma_sort_by_ensures(leq);
        assert(sorted_by(result@, leq));
        lemma_sorted_unique(result@, pairs@.sort_by(leq), leq);
    }
    result
}

/// Gives each symbol its weight in a table of `table_size` states, ascending.
pub fn normalize_tans_weights(symbols: &[u8], counts: &[usize], table_size: usize) -> (result:
    Option<Vec<(u8, usize)>>)
    requires
        counted(symbols@, counts@),
    ensures
        match shared_out(symbols@, counts@, table_size as nat) {
            None => result is None,
            Some(weights) => result matches Some(r) && r@ == weights,
        },
{
    let count: usize = symbols.len();
    if table_size < count {
        return None;
    }
    let free: usize = table_size - count;
    let mut sum: usize = 0;
    let mut i: usize = 0;
    while i < count
        invariant
            i <= count == symbols@.len(),
            counted(symbols@, counts@),
            sum == total_count(symbols@, counts@, i as nat),
        decreases count - i,
    {
        let more: usize = counts[symbols[i] as usize];
        if more > usize::MAX - sum {
            proof {
                lemma_total_count(symbols@, counts@, (i + 1) as nat, symbols@.len());
            }
            return None;
        }
        sum = sum + more;
        i = i + 1;
    }
    let mut shares: Vec<usize> = Vec::new();
    let mut rests: Vec<usize> = Vec::new();
    let mut allocated: usize = 0;
    i = 0;
    while i < count
        invariant
            i <= count == symbols@.len(),
            count <= table_size,
            free == table_size - count,
            counted(symbols@, counts@),
            sum == total(symbols@, counts@),
            shares@.len() == i,
            rests@.len() == i,
            forall|k: int|
                0 <= k < i ==> #[trigger] shares@[k] == whole_share(
                    symbols@,
                    counts@,
                    table_size as nat,
                    k,
                ),
            forall|k: int|
                0 <= k < i ==> #[trigger] rests@[k] == share_rest(
                    symbols@,
                    counts@,
                    table_size as nat,
                    k,
                ),
            forall|k: int|
                0 <= k < i ==> #[trigger] scaled(symbols@, counts@, table_size as nat, k)
                    <= usize::MAX,
            allocated == whole_shares(symbols@, counts@, table_size as nat, i as nat),
        decreases count - i,
    {
        proof {
            lemma_share(symbols@, counts@, table_size as nat, i as int);
            lemma_left_over(symbols@, counts@, table_size as nat);
            lemma_shares_grow(symbols@, counts@, table_size as nat, (i + 1) as nat, symbols@.len());
        }
        let scaled_count: usize = match counts[symbols[i] as usize].checked_mul(free) {
            Some(scaled_count) => scaled_count,
            None => return None,
        };
        assert(scaled_count == scaled(symbols@, counts@, table_size as nat, i as int));
        shares.push(scaled_count / sum);
        rests.push(scaled_count % sum);
        allocated = allocated + scaled_count / sum;
        i = i + 1;
    }
    proof {
        if count > 0 {
            lemma_left_over(symbols@, counts@, table_size as nat);
        }
    }
    let left: usize = free - allocated;
    let mut pairs: Vec<(u8, usize)> = Vec::new();
    i = 0;
    while i < count
        invariant
            i <= count == symbols@.len(),
            count <= table_size,
            counted(symbols@, counts@),
            shares@.len() == count,
            rests@.len() == count,
            forall|k: int|
                0 <= k < count ==> #[trigger] shares@[k] == whole_share(
                    symbols@,
                    counts@,
                    table_size as nat,
                    k,
                ),
            forall|k: int|
                0 <= k < count ==> #[trigger] rests@[k] == share_rest(
                    symbols@,
                    counts@,
                    table_size as nat,
                    k,
                ),
            left == left_over(symbols@, counts@, table_size as nat),
            pairs@.len() == i,
            forall|k: int|
                0 <= k < i ==> #[trigger] pairs@[k] == weight_pairs(
                    symbols@,
                    counts@,
                    table_size as nat,
                )[k],
        decreases count - i,
    {
        let mut rank: usize = 0;
        let mut j: usize = 0;
        while j < count
            invariant
                i < count == symbols@.len(),
                j <= count,
                rests@.len() == count,
                forall|k: int|
                    0 <= k < count ==> #[trigger] rests@[k] == share_rest(
                        symbols@,
                        counts@,
                        table_size as nat,
                        k,
                    ),
                rank <= j,
                rank == rest_rank(symbols@, counts@, table_size as nat, i as int, j as nat),
            decreases count - j,
        {
            if rests[j] > rests[i] || (rests[j] == rests[i] && symbols[j] < symbols[i]) {
                rank = rank + 1;
            }
            j = j + 1;
        }
        proof {
            lemma_weight_bound(symbols@, counts@, table_size as nat, i as int);
        }
        let more: usize = if rank < left {
            1
        } else {
            0
        };
        let weight: usize = 1 + shares[i] + more;
        pairs.push((symbols[i], weight));
        i = i + 1;
    }
    assert(pairs@ =~= weight_pairs(symbols@, counts@, table_size as nat));
    Some(sort_weights(&pairs))
}

proof fn lemma_shares_grow(symbols: Seq<u8>, counts: Seq<usize>, size: nat, n: nat, m: nat)
    requires
        n <= m,
    ensures
        whole_shares(symbols, counts, size, n) <= whole_shares(symbols, counts, size, m),
    decreases m - n,
{
    if n < m {
        lemma_shares_grow(symbols, counts, size, n, (m - 1) as nat);
    }
}

} // verus!
