//! Writing arrays with table-driven asymmetric numeral systems.

use super::bits;
use super::huffman_encoder;
use super::huffman_encoder::{count_bytes, encode_array_envelope, list_used};
use super::lz_encoder::append_reversed;
use super::tans;
use super::tans::{build_tans_table, sort_by_symbol, TansEntry};
use super::tans_weights;
use super::tans_weights::normalize_tans_weights;
use super::writers;
use super::writers::{ilog2, LsbWriter, MsbBits};
use crate::sequence;
use crate::sequence::append;
use vstd::arithmetic::power2::{lemma2_to64, lemma_pow2_strictly_increases, pow2};
use vstd::prelude::*;

verus! {

// ---------------------------------------------------------------------------
// Headers
// ---------------------------------------------------------------------------

/// Weights in ascending order.
pub open spec fn ascending(weights: Seq<(u8, usize)>) -> bool {
    forall|i: int, j: int|
        0 <= i <= j < weights.len() ==> (#[trigger] weights[i]).1 <= (#[trigger] weights[j]).1
}

/// A weight's difference from the one before it.
pub open spec fn weight_delta(weights: Seq<(u8, usize)>, i: int) -> nat {
    if i == 0 {
        weights[i].1 as nat
    } else {
        (weights[i].1 - weights[i - 1].1) as nat
    }
}

/// The greatest of the first `n` differences.
pub open spec fn greatest_delta(weights: Seq<(u8, usize)>, n: nat) -> nat
    decreases n,
{
    if n == 0 {
        0
    } else {
        let before = greatest_delta(weights, (n - 1) as nat);
        if weight_delta(weights, n - 1) > before {
            weight_delta(weights, n - 1)
        } else {
            before
        }
    }
}

/// How many bits the header spends on each difference.
pub open spec fn delta_width(weights: Seq<(u8, usize)>) -> nat {
    writers::log2(greatest_delta(weights, (weights.len() - 1) as nat)) + 1
}

/// The first `n` symbols with the differences of their weights.
pub open spec fn delta_bits(weights: Seq<(u8, usize)>, width: nat, n: nat) -> Seq<bool>
    decreases n,
{
    if n == 0 {
        seq![]
    } else {
        delta_bits(weights, width, (n - 1) as nat) + (bits::value_bits(
            weights[n - 1].0 as nat,
            8,
        ) + bits::value_bits(weight_delta(weights, n - 1), width))
    }
}

/// The header of a table of `2^table_bits` states: all weights but the last,
/// which takes the states that are left.
pub open spec fn header_bits(weights: Seq<(u8, usize)>, table_bits: nat) -> Seq<bool> {
    let width = delta_width(weights);
    let n = (weights.len() - 1) as nat;
    bits::value_bits((table_bits - 8) as nat, 3) + bits::value_bits(0, 1) + bits::value_bits((n - 1) as nat, 3)
        + bits::value_bits(width, 4) + delta_bits(weights, width, n) + bits::value_bits(
        weights.last().0 as nat,
        8,
    )
}

/// Whether a header can list weights for a table of `2^table_bits` states: two
/// to nine, of which those that it lists ascend.
pub open spec fn can_list(weights: Seq<(u8, usize)>, table_bits: nat) -> bool {
    2 <= weights.len() <= 9 && 8 <= table_bits <= 11 && ascending(weights.drop_last())
}

/// That header's bytes, if the weights fit in one.
pub open spec fn tans_header(weights: Seq<(u8, usize)>, table_bits: nat) -> Option<Seq<u8>> {
    if !can_list(weights, table_bits) || delta_width(weights) > table_bits {
        None
    } else {
        Some(bits::msb_pack(header_bits(weights, table_bits)))
    }
}

/// Writes the header.
pub fn encode_tans_header(weights: &[(u8, usize)], table_bits: usize) -> (result: Option<Vec<u8>>)
    requires
        can_list(weights@, table_bits as nat) ==> greatest_delta(
            weights@,
            (weights@.len() - 1) as nat,
        ) > 0,
    ensures
        match tans_header(weights@, table_bits as nat) {
            None => result is None,
            Some(bytes) => result matches Some(r) && r@ == bytes,
        },
{
    if weights.len() < 2 || weights.len() > 9 || table_bits < 8 || table_bits > 11 {
        return None;
    }
    let ghost listed = weights@.drop_last();
    let count: usize = weights.len() - 1;
    let mut greatest: usize = 0;
    let mut previous: usize = 0;
    let mut i: usize = 0;
    while i < count
        invariant
            i <= count == weights@.len() - 1,
            listed == weights@.drop_last(),
            previous == if i == 0 {
                0
            } else {
                weights@[i - 1].1
            },
            greatest == greatest_delta(weights@, i as nat),
            forall|a: int, b: int|
                0 <= a <= b < i ==> (#[trigger] weights@[a]).1 <= (#[trigger] weights@[b]).1,
        decreases count - i,
    {
        if weights[i].1 < previous {
            assert(listed[i - 1].1 > listed[i as int].1);
            return None;
        }
        let delta: usize = weights[i].1 - previous;
        assert(delta == weight_delta(weights@, i as int));
        if delta > greatest {
            greatest = delta;
        }
        previous = weights[i].1;
        i = i + 1;
    }
    assert(ascending(listed));
    let width: u32 = ilog2(greatest) + 1;
    if width as usize > table_bits {
        return None;
    }
    let mut writer: MsbBits = MsbBits::new();
    proof {
        bits::lemma_value_bits_len((table_bits - 8) as nat, 3);
        bits::lemma_value_bits_len(0, 1);
        bits::lemma_value_bits_len((count - 1) as nat, 3);
        bits::lemma_value_bits_len(width as nat, 4);
    }
    writer.push_value((table_bits - 8) as u32, 3);
    writer.push_value(0, 1);
    writer.push_value((count - 1) as u32, 3);
    writer.push_value(width, 4);
    let ghost start = writer.bits();
    proof {
        assert(start =~= bits::value_bits((table_bits - 8) as nat, 3) + bits::value_bits(0, 1)
            + bits::value_bits((count - 1) as nat, 3) + bits::value_bits(width as nat, 4));
        assert(start + delta_bits(weights@, width as nat, 0) =~= start);
        writers::lemma_log2(greatest as nat);
        lemma2_to64();
        if width < 11 {
            lemma_pow2_strictly_increases(width as nat, 11);
        }
    }
    previous = 0;
    i = 0;
    while i < count
        invariant
            i <= count == weights@.len() - 1,
            count <= 8,
            width <= 11,
            listed == weights@.drop_last(),
            ascending(listed),
            greatest == greatest_delta(weights@, count as nat),
            greatest < 2048,
            previous == if i == 0 {
                0
            } else {
                weights@[i - 1].1
            },
            writer.wf(),
            start.len() == 11,
            writer.bits() == start + delta_bits(weights@, width as nat, i as nat),
            writer.bits().len() <= 11 + i * 19,
        decreases count - i,
    {
        proof {
            bits::lemma_value_bits_len(weights@[i as int].0 as nat, 8);
            bits::lemma_value_bits_len(weight_delta(weights@, i as int), width as nat);
            lemma_delta_bound(weights@, count as nat, i as int);
            if i > 0 {
                assert(listed[i - 1].1 <= listed[i as int].1);
            }
        }
        writer.push_value(weights[i].0 as u32, 8);
        writer.push_value((weights[i].1 - previous) as u32, width);
        previous = weights[i].1;
        i = i + 1;
        assert(writer.bits() =~= start + delta_bits(weights@, width as nat, i as nat));
    }
    writer.push_value(weights[count].0 as u32, 8);
    assert(writer.bits() =~= header_bits(weights@, table_bits as nat));
    Some(writer.finish())
}

pub proof fn lemma_delta_bound(weights: Seq<(u8, usize)>, n: nat, i: int)
    requires
        0 <= i < n,
    ensures
        weight_delta(weights, i) <= greatest_delta(weights, n),
    decreases n,
{
    if i < n - 1 {
        lemma_delta_bound(weights, (n - 1) as nat, i);
    }
}

// ---------------------------------------------------------------------------
// States
// ---------------------------------------------------------------------------

/// A state of this symbol that may be followed by the state `next`.
pub open spec fn leads_to(entry: TansEntry, symbol: u8, next: nat) -> bool {
    entry.symbol == symbol && entry.base <= next <= entry.base + entry.mask
}

/// The first such state at or after `from`.
pub open spec fn state_before(table: Seq<TansEntry>, symbol: u8, next: nat, from: nat) -> Option<nat>
    decreases table.len() - from,
{
    if from >= table.len() {
        None
    } else if leads_to(table[from as int], symbol, next) {
        Some(from)
    } else {
        state_before(table, symbol, next, from + 1)
    }
}

/// The states before byte `n` of the body, and what is written for it and the
/// bytes after it. The last five bytes are the last states.
pub open spec fn tans_events(table: Seq<TansEntry>, input: Seq<u8>, n: nat) -> Option<
    (Seq<usize>, Seq<(u16, u8)>),
>
    decreases input.len() - n,
{
    if n + 5 >= input.len() {
        Some((Seq::new(5, |i: int| input[input.len() - 5 + i] as usize), seq![]))
    } else {
        match tans_events(table, input, n + 1) {
            None => None,
            Some((states, events)) => {
                let turn = (n % 5) as int;
                let next = states[turn] as nat;
                match state_before(table, input[n as int], next, 0) {
                    None => None,
                    Some(state) => {
                        let entry = table[state as int];
                        Some(
                            (
                                states.update(turn, state as usize),
                                seq![((next - entry.base) as u16, entry.bits as u8)] + events,
                            ),
                        )
                    },
                }
            },
        }
    }
}

/// What goes to one side: five events to the front and five to the back, in turn.
pub open spec fn side_bits(events: Seq<(u16, u8)>, n: nat, back: bool) -> Seq<bool>
    decreases events.len(),
{
    if events.len() == 0 {
        seq![]
    } else {
        let rest = side_bits(events.drop_first(), n + 1, back);
        if (n % 10 >= 5) == back {
            bits::code_bits(events[0].0 as nat, events[0].1 as nat) + rest
        } else {
            rest
        }
    }
}

/// The bits from the front: three states, then events.
pub open spec fn tans_front(states: Seq<usize>, events: Seq<(u16, u8)>) -> Seq<bool> {
    bits::code_bits(states[0] as nat, 8) + bits::code_bits(states[2] as nat, 8) + bits::code_bits(
        states[4] as nat,
        8,
    ) + side_bits(events, 0, false)
}

/// The bits from the back: two states, then events.
pub open spec fn tans_back(states: Seq<usize>, events: Seq<(u16, u8)>) -> Seq<bool> {
    bits::code_bits(states[1] as nat, 8) + bits::code_bits(states[3] as nat, 8) + side_bits(
        events,
        0,
        true,
    )
}

/// The stream of a body, if every state has one before it.
pub open spec fn tans_bytes(table: Seq<TansEntry>, input: Seq<u8>) -> Option<Seq<u8>> {
    match tans_events(table, input, 0) {
        None => None,
        Some((states, events)) => Some(
            bits::lsb_pack(tans_front(states, events)) + bits::lsb_pack(
                tans_back(states, events),
            ).reverse(),
        ),
    }
}

/// The coded array of bytes with two to nine different values.
pub open spec fn tans_array(input: Seq<u8>) -> Option<Seq<u8>> {
    let counts = huffman_encoder::frequencies(input);
    let symbols = huffman_encoder::used_symbols(counts, 256);
    if input.len() < 5 || input.len() > 0x3_ffff || symbols.len() < 2 || symbols.len() > 9 {
        None
    } else {
        match tans_weights::shared_out(symbols, counts, 256) {
            None => None,
            Some(weights) => weighted_array(input, weights),
        }
    }
}

/// The coded array with a table of these weights.
pub open spec fn weighted_array(input: Seq<u8>, weights: Seq<(u8, usize)>) -> Option<Seq<u8>> {
    if tans::total_weight(weights) != 256 {
        None
    } else {
        match tans::tans_table(tans::by_symbol(weights), 8) {
            None => None,
            Some(table) => match tans_bytes(table, input) {
                None => None,
                Some(stream) => match tans_header(weights, 8) {
                    None => None,
                    Some(header) => huffman_encoder::envelope(1, header + stream, input.len()),
                },
            },
        }
    }
}

proof fn lemma_state_before(table: Seq<TansEntry>, symbol: u8, next: nat, from: nat)
    ensures
        state_before(table, symbol, next, from) matches Some(state) ==> from <= state < table.len()
            && leads_to(table[state as int], symbol, next),
    decreases table.len() - from,
{
    if from < table.len() && !leads_to(table[from as int], symbol, next) {
        lemma_state_before(table, symbol, next, from + 1);
    }
}

/// States stay in the table, and events are what the states before them need.
pub proof fn lemma_tans_events(table: Seq<TansEntry>, input: Seq<u8>, n: nat)
    requires
        tans::table_ok(table, 8),
        table.len() == 256,
        input.len() >= 5,
        n <= input.len() - 5,
    ensures
        tans_events(table, input, n) matches Some((states, events)) ==> {
            &&& states.len() == 5
            &&& events.len() == input.len() - 5 - n
            &&& forall|i: int| 0 <= i < 5 ==> #[trigger] states[i] < 256
            &&& forall|i: int| 0 <= i < events.len() ==> (#[trigger] events[i]).1 <= 8
            &&& n + 5 < input.len() ==> {
                let state = states[(n % 5) as int] as int;
                let (after, _) = tans_events(table, input, n + 1)->0;
                &&& tans_events(table, input, n + 1) is Some
                &&& table[state].symbol == input[n as int]
                &&& events[0].1 == table[state].bits
                &&& events[0].0 < pow2(table[state].bits as nat)
                &&& table[state].base + events[0].0 == after[(n % 5) as int]
                &&& after == states.update((n % 5) as int, after[(n % 5) as int])
                &&& events.drop_first() == (tans_events(table, input, n + 1)->Some_0).1
            }
        },
    decreases input.len() - n,
{
    lemma2_to64();
    if n + 5 < input.len() {
        lemma_tans_events(table, input, n + 1);
        match tans_events(table, input, n + 1) {
            None => {},
            Some((after, rest)) => {
                let turn = (n % 5) as int;
                let next = after[turn] as nat;
                lemma_state_before(table, input[n as int], next, 0);
                match state_before(table, input[n as int], next, 0) {
                    None => {},
                    Some(state) => {
                        let entry = table[state as int];
                        assert(tans::entry_ok(entry, 8));
                        let (states, events) = tans_events(table, input, n)->0;
                        if entry.bits < 8 {
                            lemma_pow2_strictly_increases(entry.bits as nat, 8);
                        }
                        assert(after =~= states.update(turn, after[turn]));
                        assert(events.drop_first() =~= rest);
                        assert forall|i: int| 0 <= i < events.len() implies (
                        #[trigger] events[i]).1 <= 8 by {
                            if i > 0 {
                                assert(events[i] == rest[i - 1]);
                            }
                        }
                    },
                }
            },
        }
    }
}

fn find_state_before(table: &[TansEntry], symbol: u8, next: usize) -> (result: Option<usize>)
    requires
        tans::table_ok(table@, 8),
        table@.len() == 256,
    ensures
        match state_before(table@, symbol, next as nat, 0) {
            None => result is None,
            Some(state) => result matches Some(r) && r == state && state < 256,
        },
{
    let mut i: usize = 0;
    while i < table.len()
        invariant
            i <= table@.len() == 256,
            tans::table_ok(table@, 8),
            state_before(table@, symbol, next as nat, 0) == state_before(
                table@,
                symbol,
                next as nat,
                i as nat,
            ),
        decreases table@.len() - i,
    {
        let entry: TansEntry = table[i];
        proof {
            assert(tans::entry_ok(table@[i as int], 8));
            lemma2_to64();
            if entry.bits < 8 {
                lemma_pow2_strictly_increases(entry.bits as nat, 8);
            }
        }
        if entry.symbol == symbol && entry.base <= next && next <= entry.base + entry.mask {
            return Some(i);
        }
        i = i + 1;
    }
    None
}

/// Finds the first states and the events, the last event first.
fn collect_events(table: &[TansEntry], input: &[u8]) -> (result: Option<
    (Vec<usize>, Vec<(u16, u8)>),
>)
    requires
        tans::table_ok(table@, 8),
        table@.len() == 256,
        input@.len() >= 5,
    ensures
        match tans_events(table@, input@, 0) {
            None => result is None,
            Some((states, events)) => result matches Some(r) && r.0@ == states && r.1@
                == events.reverse(),
        },
{
    let body: usize = input.len() - 5;
    let mut states: Vec<usize> = vec![
        input[body] as usize,
        input[body + 1] as usize,
        input[body + 2] as usize,
        input[body + 3] as usize,
        input[body + 4] as usize,
    ];
    let mut events: Vec<(u16, u8)> = Vec::new();
    let mut n: usize = body;
    proof {
        assert(states@ =~= (tans_events(table@, input@, body as nat)->Some_0).0);
        assert(events@ =~= (tans_events(table@, input@, body as nat)->Some_0).1.reverse());
    }
    while n > 0
        invariant
            n <= body == input@.len() - 5,
            tans::table_ok(table@, 8),
            table@.len() == 256,
            tans_events(table@, input@, n as nat) matches Some((s, e)) && states@ == s && events@
                == e.reverse(),
        decreases n,
    {
        let ghost before = tans_events(table@, input@, n as nat)->0;
        proof {
            lemma_tans_events(table@, input@, n as nat);
        }
        n = n - 1;
        let turn: usize = n % 5;
        let next: usize = states[turn];
        let state: usize = match find_state_before(table, input[n], next) {
            None => {
                proof {
                    lemma_events_end(table@, input@, n as nat);
                }
                return None;
            },
            Some(state) => state,
        };
        let entry: TansEntry = table[state];
        proof {
            lemma_state_before(table@, input@[n as int], next as nat, 0);
            assert(tans::entry_ok(table@[state as int], 8));
        }
        let event: (u16, u8) = ((next - entry.base) as u16, entry.bits as u8);
        events.push(event);
        states.set(turn, state);
        proof {
            assert((seq![event] + before.1).reverse() =~= before.1.reverse().push(event));
        }
    }
    Some((states, events))
}

proof fn lemma_events_end(table: Seq<TansEntry>, input: Seq<u8>, n: nat)
    requires
        tans_events(table, input, n) is None,
    ensures
        tans_events(table, input, 0) is None,
    decreases n,
{
    if n > 0 {
        lemma_events_end(table, input, (n - 1) as nat);
    }
}

/// Appends every event to its side, the last event first in the list.
fn push_events(front: &mut LsbWriter, back: &mut LsbWriter, events: &[(u16, u8)])
    requires
        old(front).wf(),
        old(back).wf(),
        old(front).bits().len() <= 24,
        old(back).bits().len() <= 24,
        events@.len() <= 0x3_ffff,
        forall|i: int| 0 <= i < events@.len() ==> (#[trigger] events@[i]).1 <= 8,
    ensures
        final(front).wf(),
        final(back).wf(),
        final(front).bits() == old(front).bits() + side_bits(events@.reverse(), 0, false),
        final(back).bits() == old(back).bits() + side_bits(events@.reverse(), 0, true),
{
    let ghost all = events@.reverse();
    let ghost whole_front = front.bits() + side_bits(all, 0, false);
    let ghost whole_back = back.bits() + side_bits(all, 0, true);
    let mut n: usize = 0;
    assert(all.subrange(0, all.len() as int) =~= all);
    while n < events.len()
        invariant
            n <= events@.len() <= 0x3_ffff,
            all == events@.reverse(),
            forall|i: int| 0 <= i < events@.len() ==> (#[trigger] events@[i]).1 <= 8,
            front.wf(),
            back.wf(),
            front.bits().len() <= 24 + 8 * n,
            back.bits().len() <= 24 + 8 * n,
            front.bits() + side_bits(all.subrange(n as int, all.len() as int), n as nat, false)
                == whole_front,
            back.bits() + side_bits(all.subrange(n as int, all.len() as int), n as nat, true)
                == whole_back,
        decreases events@.len() - n,
    {
        let event: (u16, u8) = events[events.len() - 1 - n];
        let ghost rest = all.subrange(n as int, all.len() as int);
        let ghost front_before = front.bits();
        let ghost back_before = back.bits();
        proof {
            assert(rest[0] == event);
            assert(rest.drop_first() =~= all.subrange(n + 1, all.len() as int));
            bits::lemma_code_bits_len(event.0 as nat, event.1 as nat);
        }
        if n % 10 >= 5 {
            back.push(event.0, event.1);
        } else {
            front.push(event.0, event.1);
        }
        n = n + 1;
        proof {
            let after = all.subrange(n as int, all.len() as int);
            assert(front.bits() + side_bits(after, n as nat, false) =~= front_before + side_bits(
                rest,
                (n - 1) as nat,
                false,
            ));
            assert(back.bits() + side_bits(after, n as nat, true) =~= back_before + side_bits(
                rest,
                (n - 1) as nat,
                true,
            ));
        }
    }
    proof {
        let after = all.subrange(n as int, all.len() as int);
        assert(front.bits() + side_bits(after, n as nat, false) =~= front.bits());
        assert(back.bits() + side_bits(after, n as nat, true) =~= back.bits());
    }
}

/// Writes the stream of a body.
fn encode_tans_stream(table: &[TansEntry], input: &[u8]) -> (result: Option<Vec<u8>>)
    requires
        tans::table_ok(table@, 8),
        table@.len() == 256,
        5 <= input@.len() <= 0x3_ffff,
    ensures
        match tans_bytes(table@, input@) {
            None => result is None,
            Some(bytes) => result matches Some(r) && r@ == bytes,
        },
{
    let (states, events): (Vec<usize>, Vec<(u16, u8)>) = match collect_events(table, input) {
        None => return None,
        Some(found) => found,
    };
    let mut front: LsbWriter = LsbWriter::with_capacity(input.len());
    let mut back: LsbWriter = LsbWriter::with_capacity(input.len());
    proof {
        lemma_tans_events(table@, input@, 0);
        bits::lemma_code_bits_len(states@[0] as nat, 8);
        bits::lemma_code_bits_len(states@[1] as nat, 8);
        bits::lemma_code_bits_len(states@[2] as nat, 8);
        bits::lemma_code_bits_len(states@[3] as nat, 8);
        bits::lemma_code_bits_len(states@[4] as nat, 8);
        let all = (tans_events(table@, input@, 0)->Some_0).1;
        assert(events@.reverse() =~= all);
        assert forall|i: int| 0 <= i < events@.len() implies (#[trigger] events@[i]).1 <= 8 by {
            assert(events@[i] == all[all.len() - 1 - i]);
        }
    }
    front.push(states[0] as u16, 8);
    back.push(states[1] as u16, 8);
    front.push(states[2] as u16, 8);
    back.push(states[3] as u16, 8);
    front.push(states[4] as u16, 8);
    push_events(&mut front, &mut back, &events);
    proof {
        let all = (tans_events(table@, input@, 0)->Some_0).1;
        assert(front.bits() =~= tans_front(states@, all));
        assert(back.bits() =~= tans_back(states@, all));
    }
    let mut bytes: Vec<u8> = front.finish();
    let back_bytes: Vec<u8> = back.finish();
    append_reversed(&mut bytes, &back_bytes);
    Some(bytes)
}

fn sum_of_weights(weights: &[(u8, usize)]) -> (result: usize)
    requires
        weights@.len() <= 9,
        forall|i: int| 0 <= i < weights@.len() ==> (#[trigger] weights@[i]).1 <= 0x1000_0000,
    ensures
        result == tans::total_weight(weights@),
{
    let mut sum: usize = 0;
    let mut i: usize = 0;
    assert(weights@.subrange(0, 0) =~= Seq::<(u8, usize)>::empty());
    while i < weights.len()
        invariant
            i <= weights@.len() <= 9,
            forall|k: int| 0 <= k < weights@.len() ==> (#[trigger] weights@[k]).1 <= 0x1000_0000,
            sum == tans::total_weight(weights@.subrange(0, i as int)),
            sum <= i * 0x1000_0000,
        decreases weights@.len() - i,
    {
        assert(weights@.subrange(0, i + 1).drop_last() =~= weights@.subrange(0, i as int));
        sum = sum + weights[i].1;
        i = i + 1;
    }
    assert(weights@.subrange(0, weights@.len() as int) =~= weights@);
    sum
}

/// Writes bytes with a table of these weights.
fn encode_weighted(input: &[u8], weights: &[(u8, usize)]) -> (result: Option<Vec<u8>>)
    requires
        5 <= input@.len() <= 0x3_ffff,
        2 <= weights@.len() <= 9,
        forall|i: int| 0 <= i < weights@.len() ==> 1 <= (#[trigger] weights@[i]).1 <= 0x1000_0000,
    ensures
        match weighted_array(input@, weights@) {
            None => result is None,
            Some(bytes) => result matches Some(r) && r@ == bytes,
        },
{
    if sum_of_weights(weights) != 256 {
        return None;
    }
    let sorted: Vec<(u8, usize)> = sort_by_symbol(weights);
    let table: Vec<TansEntry> = match build_tans_table(&sorted, 8) {
        None => return None,
        Some(table) => table,
    };
    proof {
        tans::lemma_tans_table_ok(sorted@, 8);
        lemma2_to64();
    }
    let stream: Vec<u8> = match encode_tans_stream(&table, input) {
        None => return None,
        Some(stream) => stream,
    };
    proof {
        lemma_delta_bound(weights@, (weights@.len() - 1) as nat, 0);
        assert(weights@[0].1 >= 1);
    }
    let mut payload: Vec<u8> = match encode_tans_header(weights, 8) {
        None => return None,
        Some(header) => header,
    };
    append(&mut payload, &stream);
    encode_array_envelope(1, &payload, input.len())
}

/// Writes bytes as a coded array, if there are few different ones and that
/// makes them fewer.
pub fn encode_tans_array(input: &[u8]) -> (result: Option<Vec<u8>>)
    ensures
        match tans_array(input@) {
            None => result is None,
            Some(bytes) => result matches Some(r) && r@ == bytes,
        },
{
    if input.len() < 5 || input.len() > 0x3_ffff {
        return None;
    }
    let counts: Vec<usize> = count_bytes(input);
    let symbols: Vec<u8> = list_used(&counts);
    if symbols.len() < 2 || symbols.len() > 9 {
        return None;
    }
    proof {
        huffman_encoder::lemma_used_symbols(counts@, 256);
        assert(counts@[symbols@[0] as int] != 0);
        tans_weights::lemma_counted(symbols@, counts@);
    }
    let weights: Vec<(u8, usize)> = match normalize_tans_weights(&symbols, &counts, 256) {
        None => return None,
        Some(weights) => weights,
    };
    proof {
        lemma_normalized(symbols@, counts@);
    }
    encode_weighted(input, &weights)
}

/// Weights are ascending, at least one, and of different symbols.
pub proof fn lemma_normalized(symbols: Seq<u8>, counts: Seq<usize>)
    requires
        tans_weights::counted(symbols, counts),
        0 < symbols.len() <= 256,
    ensures
        ({
            let weights = tans_weights::normalized(symbols, counts, 256);
            &&& weights.len() == symbols.len()
            &&& ascending(weights)
            &&& forall|i: int|
                0 <= i < weights.len() ==> 1 <= (#[trigger] weights[i]).1 <= 0x1000_0000
            &&& forall|i: int, j: int|
                0 <= i < j < weights.len() ==> (#[trigger] weights[i]).0 != (
                #[trigger] weights[j]).0
        }),
{
    tans_weights::law_normalized(symbols, counts, 256);
    let weights = tans_weights::normalized(symbols, counts, 256);
    assert forall|i: int, j: int| 0 <= i <= j < weights.len() implies (#[trigger] weights[i]).1 <= (
    #[trigger] weights[j]).1 by {
        if i < j {
            assert(tans_weights::lighter(weights[i], weights[j]));
        }
    }
}

} // verus!
