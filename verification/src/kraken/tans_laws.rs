//! What is written with table-driven asymmetric numeral systems is read back.

use super::arrays;
use super::bit_laws;
use super::bits;
use super::huffman_encoder;
use super::huffman_laws;
use super::readers;
use super::tans;
use super::tans::TansEntry;
use super::tans_encoder;
use super::tans_weights;
use super::writers;
use super::KrakenError;
use crate::sequence;
use vstd::arithmetic::power2::{lemma2_to64, pow2};
use vstd::prelude::*;

verus! {

// ---------------------------------------------------------------------------
// Headers
// ---------------------------------------------------------------------------

proof fn lemma_delta_prefix(weights: Seq<(u8, usize)>, width: nat, i: nat, n: nat)
    requires
        i <= n,
    ensures
        sequence::stands(
            tans_encoder::delta_bits(weights, width, n),
            0,
            tans_encoder::delta_bits(weights, width, i),
        ),
    decreases n - i,
{
    let part = tans_encoder::delta_bits(weights, width, i);
    if i == n {
        assert(part.subrange(0, part.len() as int) =~= part);
    } else {
        lemma_delta_prefix(weights, width, i, (n - 1) as nat);
        let before = tans_encoder::delta_bits(weights, width, (n - 1) as nat);
        let after = tans_encoder::delta_bits(weights, width, n);
        assert(after.subrange(0, before.len() as int) =~= before);
        sequence::lemma_stands_within(after, 0, before, 0, part);
    }
}

proof fn lemma_total_split(weights: Seq<(u8, usize)>, i: int)
    requires
        0 <= i <= weights.len(),
        forall|k: int| 0 <= k < weights.len() ==> (#[trigger] weights[k]).1 >= 1,
    ensures
        tans::total_weight(weights.subrange(0, i)) + (weights.len() - i) <= tans::total_weight(
            weights,
        ),
    decreases weights.len() - i,
{
    if i == weights.len() {
        assert(weights.subrange(0, i) =~= weights);
    } else {
        lemma_total_split(weights, i + 1);
        assert(weights.subrange(0, i + 1).drop_last() =~= weights.subrange(0, i));
    }
}

proof fn lemma_total_bound(weights: Seq<(u8, usize)>, most: nat)
    requires
        forall|k: int| 0 <= k < weights.len() ==> (#[trigger] weights[k]).1 <= most,
    ensures
        tans::total_weight(weights) <= weights.len() * most,
    decreases weights.len(),
{
    if weights.len() > 0 {
        let front = weights.drop_last();
        assert forall|k: int| 0 <= k < front.len() implies (#[trigger] front[k]).1 <= most by {
            assert(front[k] == weights[k]);
        }
        lemma_total_bound(front, most);
        assert(weights.len() * most == front.len() * most + most) by (nonlinear_arith)
            requires
                weights.len() == front.len() + 1,
        ;
    }
}

/// Weights that a header can list.
spec fn weights_ok(weights: Seq<(u8, usize)>) -> bool {
    &&& 2 <= weights.len() <= 9
    &&& tans_encoder::ascending(weights)
    &&& tans::total_weight(weights) == 256
    &&& forall|i: int| 0 <= i < weights.len() ==> (#[trigger] weights[i]).1 >= 1
    &&& forall|i: int, j: int|
        0 <= i < j < weights.len() ==> (#[trigger] weights[i]).0 != (#[trigger] weights[j]).0
}

proof fn lemma_no_weight(weights: Seq<(u8, usize)>, i: int)
    requires
        weights_ok(weights),
        0 <= i < weights.len(),
    ensures
        !tans::has_weight(weights.subrange(0, i), weights[i].0),
{
    let before = weights.subrange(0, i);
    if tans::has_weight(before, weights[i].0) {
        let k = choose|k: int| 0 <= k < before.len() && (#[trigger] before[k]).0 == weights[i].0;
        assert(before[k] == weights[k]);
        assert(false);
    }
}

/// The last weight is what the others leave.
proof fn lemma_last_weight(weights: Seq<(u8, usize)>)
    requires
        weights_ok(weights),
    ensures
        ({
            let n = weights.len() - 1;
            let rest = 256 - tans::total_weight(weights.subrange(0, n));
            &&& rest == weights[n].1
            &&& rest > 1
            &&& rest >= weights[n - 1].1
        }),
{
    let n = weights.len() - 1;
    assert(weights.drop_last() =~= weights.subrange(0, n));
    assert forall|k: int| 0 <= k < weights.len() implies (#[trigger] weights[k]).1
        <= weights[n].1 by {
        assert(weights[k].1 <= weights[n].1);
    }
    lemma_total_bound(weights, weights[n].1 as nat);
    let most = weights[n].1 as int;
    assert(most > 1) by (nonlinear_arith)
        requires
            256 <= weights.len() * most,
            weights.len() <= 9,
            most >= 0,
    ;
    assert(weights[n - 1].1 <= weights[n].1);
}

/// The weights from `i` on are read back.
proof fn lemma_read_weights(
    bits: Seq<bool>,
    at: nat,
    weights: Seq<(u8, usize)>,
    width: nat,
    i: nat,
)
    requires
        weights_ok(weights),
        i <= weights.len() - 1,
        1 <= width <= 8,
        tans_encoder::greatest_delta(weights, (weights.len() - 1) as nat) < pow2(width),
        sequence::stands(
            bits,
            at,
            tans_encoder::delta_bits(weights, width, (weights.len() - 1) as nat)
                + bits::value_bits(weights.last().0 as nat, 8),
        ),
    ensures
        tans::sparse_weights(
            bits,
            at + tans_encoder::delta_bits(weights, width, i).len(),
            (weights.len() - 1 - i) as nat,
            width,
            256,
            weights.subrange(0, i as int),
        ) == Some(
            (
                tans::by_symbol(weights),
                at + tans_encoder::delta_bits(weights, width, (weights.len() - 1) as nat).len() + 8,
            ),
        ),
    decreases weights.len() - i,
{
    let n = (weights.len() - 1) as nat;
    let whole = tans_encoder::delta_bits(weights, width, n);
    let last = bits::value_bits(weights.last().0 as nat, 8);
    let before = tans_encoder::delta_bits(weights, width, i);
    let start = at + before.len();
    let known = weights.subrange(0, i as int);
    sequence::lemma_stands_split(bits, at, whole, last);
    lemma2_to64();
    lemma_no_weight(weights, i as int);
    if i == n {
        bit_laws::lemma_read_msb(bits, start, weights.last().0 as nat, 8);
        lemma_last_weight(weights);
        assert(known.last() == weights[n - 1]);
        assert(known.push(weights[i as int]) =~= weights);
    } else {
        let after = tans_encoder::delta_bits(weights, width, i + 1);
        let symbol = weights[i as int].0 as nat;
        let delta = tans_encoder::weight_delta(weights, i as int);
        bits::lemma_value_bits_len(symbol, 8);
        bits::lemma_value_bits_len(delta, width);
        lemma_delta_prefix(weights, width, i + 1, n);
        sequence::lemma_stands_within(bits, at, whole, 0, after);
        sequence::lemma_stands_split(
            bits,
            at,
            before,
            bits::value_bits(symbol, 8) + bits::value_bits(delta, width),
        );
        sequence::lemma_stands_split(
            bits,
            start,
            bits::value_bits(symbol, 8),
            bits::value_bits(delta, width),
        );
        bit_laws::lemma_read_msb(bits, start, symbol, 8);
        tans_encoder::lemma_delta_bound(weights, n, i as int);
        bit_laws::lemma_read_msb(bits, start + 8, delta, width);
        if i > 0 {
            assert(known.last() == weights[i - 1]);
            assert(weights[i - 1].1 <= weights[i as int].1);
        }
        assert(tans::last_weight(known) + delta == weights[i as int].1);
        lemma_total_split(weights, i as int + 1);
        assert(weights.subrange(0, i as int + 1).drop_last() =~= known);
        assert(known.push(weights[i as int]) =~= weights.subrange(0, i as int + 1));
        lemma_read_weights(bits, at, weights, width, i + 1);
    }
}

/// The header is read back.
#[verifier::spinoff_prover]
#[verifier::rlimit(60)]
proof fn lemma_read_header(weights: Seq<(u8, usize)>, more: Seq<u8>)
    requires
        weights_ok(weights),
        tans_encoder::tans_header(weights, 8) is Some,
    ensures
        ({
            let header = tans_encoder::tans_header(weights, 8)->0;
            let bits = bits::msb_bits(header + more);
            let end = tans_encoder::header_bits(weights, 8).len();
            &&& readers::read_bits(bits, 0, 3) == Some((0nat, 3nat))
            &&& tans::tans_weights(bits, 3, 8) == Some((tans::by_symbol(weights), end))
            &&& header.len() == bits::bytes_for(end)
            &&& header.len() >= 4
        }),
{
    let header = tans_encoder::tans_header(weights, 8)->0;
    let all = tans_encoder::header_bits(weights, 8);
    let bits = bits::msb_bits(header + more);
    let width = tans_encoder::delta_width(weights);
    let n = (weights.len() - 1) as nat;
    bit_laws::lemma_msb_front(all, more);
    let a = bits::value_bits(0, 3);
    let b = bits::value_bits(0, 1);
    let c = bits::value_bits((n - 1) as nat, 3);
    let d = bits::value_bits(width, 4);
    let e = tans_encoder::delta_bits(weights, width, n);
    let f = bits::value_bits(weights.last().0 as nat, 8);
    bits::lemma_value_bits_len(0, 3);
    bits::lemma_value_bits_len(0, 1);
    bits::lemma_value_bits_len((n - 1) as nat, 3);
    bits::lemma_value_bits_len(width, 4);
    bits::lemma_value_bits_len(weights.last().0 as nat, 8);
    assert(all =~= (a + b + c + d) + (e + f));
    sequence::lemma_stands_split(bits, 0, a + b + c + d, e + f);
    sequence::lemma_stands_split(bits, 0, a + b + c, d);
    sequence::lemma_stands_split(bits, 0, a + b, c);
    sequence::lemma_stands_split(bits, 0, a, b);
    lemma2_to64();
    bit_laws::lemma_read_msb(bits, 0, 0, 3);
    bit_laws::lemma_read_msb(bits, 3, 0, 1);
    bit_laws::lemma_read_msb(bits, 4, (n - 1) as nat, 3);
    bit_laws::lemma_read_msb(bits, 7, width, 4);
    let greatest = tans_encoder::greatest_delta(weights, n);
    tans_encoder::lemma_delta_bound(weights, n, 0);
    assert(weights[0].1 >= 1);
    writers::lemma_log2(greatest);
    lemma_read_weights(bits, 11, weights, width, 0);
    assert(weights.subrange(0, 0) =~= Seq::<(u8, usize)>::empty());
    assert(tans_encoder::delta_bits(weights, width, 0).len() == 0);
    let first = tans_encoder::delta_bits(weights, width, 1);
    lemma_delta_prefix(weights, width, 1, n);
    bits::lemma_value_bits_len(weights[0].0 as nat, 8);
    bits::lemma_value_bits_len(tans_encoder::weight_delta(weights, 0), width);
    assert(first.len() == 8 + width);
}

// ---------------------------------------------------------------------------
// Streams
// ---------------------------------------------------------------------------

/// The bytes of the body from `n` on are read back.
proof fn lemma_read_events(
    table: Seq<TansEntry>,
    input: Seq<u8>,
    n: nat,
    front: Seq<bool>,
    back: Seq<bool>,
    front_at: nat,
    back_at: nat,
)
    requires
        tans::table_ok(table, 8),
        table.len() == 256,
        input.len() >= 5,
        n <= input.len() - 5,
        tans_encoder::tans_events(table, input, n) is Some,
        ({
            let (states, events) = tans_encoder::tans_events(table, input, n)->0;
            let f = tans_encoder::side_bits(events, n, false);
            let b = tans_encoder::side_bits(events, n, true);
            &&& sequence::stands(front, front_at, f)
            &&& sequence::stands(back, back_at, b)
            &&& front_at + f.len() + back_at + b.len() <= front.len()
            &&& front.len() == back.len()
        }),
    ensures
        ({
            let (states, events) = tans_encoder::tans_events(table, input, n)->0;
            let last = tans_encoder::tans_events(table, input, (input.len() - 5) as nat)->0;
            tans::tans_symbols(
                table,
                front,
                back,
                input.subrange(0, n as int),
                states,
                front_at,
                back_at,
                (input.len() - 5) as nat,
            ) == Some(
                (
                    input.subrange(0, input.len() - 5),
                    last.0,
                    front_at + tans_encoder::side_bits(events, n, false).len(),
                    back_at + tans_encoder::side_bits(events, n, true).len(),
                ),
            )
        }),
    decreases input.len() - n,
{
    let (states, events) = tans_encoder::tans_events(table, input, n)->0;
    tans_encoder::lemma_tans_events(table, input, n);
    if n + 5 < input.len() {
        let turn = (n % 5) as int;
        let state = states[turn] as int;
        let (after, rest) = tans_encoder::tans_events(table, input, n + 1)->0;
        let entry = table[state];
        let code = bits::code_bits(events[0].0 as nat, events[0].1 as nat);
        bits::lemma_code_bits_len(events[0].0 as nat, events[0].1 as nat);
        assert(events.drop_first() == rest);
        assert(input.subrange(0, n as int).push(entry.symbol) =~= input.subrange(0, n as int + 1));
        assert(states.update(turn, (entry.base + events[0].0) as usize) =~= after);
        let f = tans_encoder::side_bits(rest, n + 1, false);
        let b = tans_encoder::side_bits(rest, n + 1, true);
        if n % 10 >= 5 {
            sequence::lemma_stands_split(back, back_at, code, b);
            bit_laws::lemma_read_code(back, back_at, front_at, events[0].0 as nat, entry.bits as nat);
            lemma_read_events(table, input, n + 1, front, back, front_at, back_at + code.len());
        } else {
            sequence::lemma_stands_split(front, front_at, code, f);
            bit_laws::lemma_read_code(
                front,
                front_at,
                back_at,
                events[0].0 as nat,
                entry.bits as nat,
            );
            lemma_read_events(table, input, n + 1, front, back, front_at + code.len(), back_at);
        }
    }
}

proof fn lemma_read_state(bits: Seq<bool>, at: nat, state: usize)
    requires
        sequence::stands(bits, at, bits::code_bits(state as nat, 8)),
        state < 256,
    ensures
        bits::lsb_value(bits.subrange(at as int, (at + 8) as int)) == state,
{
    bits::lemma_code_bits_len(state as nat, 8);
    lemma2_to64();
    bits::lemma_lsb_value_of_bits(state as nat, 8);
}

/// The first states are read back.
proof fn lemma_read_first_states(
    states: Seq<usize>,
    events: Seq<(u16, u8)>,
    front: Seq<bool>,
    back: Seq<bool>,
)
    requires
        states.len() == 5,
        forall|i: int| 0 <= i < 5 ==> #[trigger] states[i] < 256,
        sequence::stands(front, 0, tans_encoder::tans_front(states, events)),
        sequence::stands(back, 0, tans_encoder::tans_back(states, events)),
        front.len() >= 40,
    ensures
        tans::first_states(front, back, 8) == Some(states),
        sequence::stands(front, 24, tans_encoder::side_bits(events, 0, false)),
        sequence::stands(back, 16, tans_encoder::side_bits(events, 0, true)),
{
    let c0 = bits::code_bits(states[0] as nat, 8);
    let c1 = bits::code_bits(states[1] as nat, 8);
    let c2 = bits::code_bits(states[2] as nat, 8);
    let c3 = bits::code_bits(states[3] as nat, 8);
    let c4 = bits::code_bits(states[4] as nat, 8);
    bits::lemma_code_bits_len(states[0] as nat, 8);
    bits::lemma_code_bits_len(states[1] as nat, 8);
    bits::lemma_code_bits_len(states[2] as nat, 8);
    bits::lemma_code_bits_len(states[3] as nat, 8);
    bits::lemma_code_bits_len(states[4] as nat, 8);
    sequence::lemma_stands_split(
        front,
        0,
        c0 + c2 + c4,
        tans_encoder::side_bits(events, 0, false),
    );
    sequence::lemma_stands_split(front, 0, c0 + c2, c4);
    sequence::lemma_stands_split(front, 0, c0, c2);
    sequence::lemma_stands_split(back, 0, c1 + c3, tans_encoder::side_bits(events, 0, true));
    sequence::lemma_stands_split(back, 0, c1, c3);
    lemma_read_state(front, 0, states[0]);
    lemma_read_state(back, 0, states[1]);
    lemma_read_state(front, 8, states[2]);
    lemma_read_state(back, 8, states[3]);
    lemma_read_state(front, 16, states[4]);
    assert(tans::first_states(front, back, 8)->0 =~= states);
}

/// The stream is read back.
#[verifier::spinoff_prover]
#[verifier::rlimit(60)]
proof fn lemma_read_stream(table: Seq<TansEntry>, input: Seq<u8>)
    requires
        tans::table_ok(table, 8),
        table.len() == 256,
        input.len() >= 5,
        tans_encoder::tans_bytes(table, input) is Some,
    ensures
        tans::tans_stream(table, 8, tans_encoder::tans_bytes(table, input)->0, input.len()) == Some(
            input,
        ),
        tans_encoder::tans_bytes(table, input)->0.len() >= 5,
{
    let stream = tans_encoder::tans_bytes(table, input)->0;
    let (states, events) = tans_encoder::tans_events(table, input, 0)->0;
    let f = tans_encoder::tans_front(states, events);
    let b = tans_encoder::tans_back(states, events);
    let front = bits::lsb_bits(stream);
    let back = bits::lsb_bits(stream.reverse());
    bit_laws::lemma_lsb_ends(f, b);
    tans_encoder::lemma_tans_events(table, input, 0);
    bits::lemma_code_bits_len(states[0] as nat, 8);
    bits::lemma_code_bits_len(states[1] as nat, 8);
    bits::lemma_code_bits_len(states[2] as nat, 8);
    bits::lemma_code_bits_len(states[3] as nat, 8);
    bits::lemma_code_bits_len(states[4] as nat, 8);
    assert(f.len() == 24 + tans_encoder::side_bits(events, 0, false).len());
    assert(b.len() == 16 + tans_encoder::side_bits(events, 0, true).len());
    lemma_read_first_states(states, events, front, back);
    lemma_read_events(table, input, 0, front, back, 24, 16);
    assert(input.subrange(0, 0) =~= Seq::<u8>::empty());
    let last = tans_encoder::tans_events(table, input, (input.len() - 5) as nat)->0;
    assert(forall|i: int| 0 <= i < 5 ==> #[trigger] last.0[i] <= 255);
    assert(input.subrange(0, input.len() - 5) + last.0.map_values(|s: usize| s as u8) =~= input);
}

/// A payload is read back.
proof fn lemma_read_payload(input: Seq<u8>, weights: Seq<(u8, usize)>)
    requires
        weights_ok(weights),
        input.len() >= 5,
        tans_encoder::tans_header(weights, 8) is Some,
        tans::tans_table(tans::by_symbol(weights), 8) is Some,
        tans_encoder::tans_bytes(tans::tans_table(tans::by_symbol(weights), 8)->0, input) is Some,
    ensures
        tans::tans_payload(
            tans_encoder::tans_header(weights, 8)->0 + tans_encoder::tans_bytes(
                tans::tans_table(tans::by_symbol(weights), 8)->0,
                input,
            )->0,
            input.len(),
        ) == Some(input),
{
    let header = tans_encoder::tans_header(weights, 8)->0;
    let table = tans::tans_table(tans::by_symbol(weights), 8)->0;
    let stream = tans_encoder::tans_bytes(table, input)->0;
    let payload = header + stream;
    lemma_read_header(weights, stream);
    tans::lemma_tans_table_ok(tans::by_symbol(weights), 8);
    lemma2_to64();
    lemma_read_stream(table, input);
    assert(payload.subrange(header.len() as int, payload.len() as int) =~= stream);
}

/// An array whose payload is read back.
proof fn lemma_read_tans(
    bytes: Seq<u8>,
    at: nat,
    base: nat,
    required: Option<usize>,
    payload: Seq<u8>,
    input: Seq<u8>,
)
    requires
        huffman_encoder::envelope(1, payload, input.len()) is Some,
        sequence::stands(bytes, at, huffman_encoder::envelope(1, payload, input.len())->0),
        required is Some ==> required->0 == input.len(),
        tans::tans_payload(payload, input.len()) == Some(input),
    ensures
        arrays::array(bytes, at, base, required, 0) == Ok::<(Seq<u8>, nat), KrakenError>(
            (input, at + huffman_encoder::envelope(1, payload, input.len())->0.len()),
        ),
        bytes[at as int] < 0x80,
        huffman_encoder::envelope(1, payload, input.len())->0.len() > 0,
{
    huffman_laws::law_envelope(bytes, at, base, 1, payload, input.len());
    arrays::lemma_coded_array(bytes, at, base, required, 1, payload.len(), input.len(), at + 5);
}

/// A coded array is read back.
pub proof fn law_tans_array(
    bytes: Seq<u8>,
    at: nat,
    base: nat,
    required: Option<usize>,
    input: Seq<u8>,
)
    requires
        tans_encoder::tans_array(input) is Some,
        sequence::stands(bytes, at, tans_encoder::tans_array(input)->0),
        required is Some ==> required->0 == input.len(),
    ensures
        arrays::array(bytes, at, base, required, 0) == Ok::<(Seq<u8>, nat), KrakenError>(
            (input, at + tans_encoder::tans_array(input)->0.len()),
        ),
        bytes[at as int] < 0x80,
        tans_encoder::tans_array(input)->0.len() > 0,
{
    let counts = huffman_encoder::frequencies(input);
    let symbols = huffman_encoder::used_symbols(counts, 256);
    let weights = tans_weights::normalized(symbols, counts, 256);
    assert(weights_ok(weights)) by {
        huffman_encoder::lemma_used_symbols(counts, 256);
        assert(counts[symbols[0] as int] != 0);
        tans_weights::lemma_counted(symbols, counts);
        tans_encoder::lemma_normalized(symbols, counts);
    }
    lemma_read_payload(input, weights);
    let table = tans::tans_table(tans::by_symbol(weights), 8)->0;
    let payload = tans_encoder::tans_header(weights, 8)->0 + tans_encoder::tans_bytes(table, input)->0;
    lemma_read_tans(bytes, at, base, required, payload, input);
}

} // verus!
