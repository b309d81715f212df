//! Writing LZ chunks.

use super::bits;
use super::decoder::CHUNK_SIZE;
use super::readers::power_of_two;
use super::writers;
use super::writers::{ilog2, MsbBits};
use crate::sequence::{append, part, to_vec};
use vstd::arithmetic::power2::{lemma2_to64, lemma_pow2_pos, lemma_pow2_strictly_increases, pow2};
use vstd::prelude::*;

verus! {

// ---------------------------------------------------------------------------
// Stored arrays
// ---------------------------------------------------------------------------

/// A 24-bit number, high byte first.
pub open spec fn be24_bytes(value: nat) -> Seq<u8> {
    seq![(value / 0x10000) as u8, ((value / 256) % 256) as u8, (value % 256) as u8]
}

/// An array that is stored as it is: its size and its bytes.
pub open spec fn stored(bytes: Seq<u8>) -> Seq<u8> {
    be24_bytes(bytes.len()) + bytes
}

/// Appends a 24-bit number, high byte first.
pub fn write_be24(output: &mut Vec<u8>, value: u32)
    requires
        value <= 0xff_ffff,
    ensures
        final(output)@ == old(output)@ + be24_bytes(value as nat),
{
    output.push((value / 0x10000) as u8);
    output.push(((value / 256) % 256) as u8);
    output.push((value % 256) as u8);
    assert(output@ =~= old(output)@ + be24_bytes(value as nat));
}

/// Appends an array that is stored as it is.
pub fn encode_stored_array(output: &mut Vec<u8>, bytes: &[u8])
    requires
        bytes@.len() <= 0xff_ffff,
    ensures
        final(output)@ == old(output)@ + stored(bytes@),
{
    write_be24(output, bytes.len() as u32);
    append(output, bytes);
    assert(output@ =~= old(output)@ + stored(bytes@));
}

// ---------------------------------------------------------------------------
// Matches
// ---------------------------------------------------------------------------

/// For how long the bytes at `a` and at `b` agree.
pub open spec fn common_length(chunk: Seq<u8>, a: nat, b: nat) -> nat
    decreases chunk.len() - b,
{
    if b < chunk.len() && chunk[a as int] == chunk[b as int] {
        1 + common_length(chunk, a + 1, b + 1)
    } else {
        0
    }
}

/// A 32-bit number, low byte first.
pub open spec fn le32(bytes: Seq<u8>, at: int) -> nat {
    (bytes[at] + 256 * bytes[at + 1] + 0x10000 * bytes[at + 2] + 0x100_0000 * bytes[at + 3]) as nat
}

/// The hash of the four bytes at `at`.
pub open spec fn four_byte_hash(chunk: Seq<u8>, at: nat) -> nat {
    ((le32(chunk, at as int) * 0x9e37_79b1) % 0x1_0000_0000) / 0x10000
}

/// The last place before `at` whose four bytes have this hash.
pub open spec fn last_hashed(chunk: Seq<u8>, hash: nat, at: nat) -> Option<nat>
    decreases at,
{
    if at == 0 {
        None
    } else if four_byte_hash(chunk, (at - 1) as nat) == hash {
        Some((at - 1) as nat)
    } else {
        last_hashed(chunk, hash, (at - 1) as nat)
    }
}

/// The last place before `at` whose four bytes have the hash of those at `at`.
pub open spec fn previous_match(chunk: Seq<u8>, at: nat) -> Option<nat> {
    if at + 4 <= chunk.len() {
        last_hashed(chunk, four_byte_hash(chunk, at), at)
    } else {
        None
    }
}

/// A distance that a chunk may write out.
pub open spec fn distance_ok(distance: nat) -> bool {
    8 <= distance <= 0x3fff
}

pub proof fn lemma_common_length(chunk: Seq<u8>, a: nat, b: nat)
    requires
        a <= b <= chunk.len(),
    ensures
        b + common_length(chunk, a, b) <= chunk.len(),
        forall|k: int|
            0 <= k < common_length(chunk, a, b) ==> chunk[a + k] == #[trigger] chunk[b + k],
    decreases chunk.len() - b,
{
    if b < chunk.len() && chunk[a as int] == chunk[b as int] {
        lemma_common_length(chunk, a + 1, b + 1);
        let n = common_length(chunk, a + 1, b + 1);
        assert forall|k: int| 0 <= k < common_length(chunk, a, b) implies chunk[a + k]
            == #[trigger] chunk[b + k] by {
            if k > 0 {
                assert(chunk[(a + 1) + (k - 1)] == chunk[(b + 1) + (k - 1)]);
            }
        }
    }
}

pub proof fn lemma_last_hashed(chunk: Seq<u8>, hash: nat, at: nat)
    ensures
        last_hashed(chunk, hash, at) matches Some(p) ==> p < at,
    decreases at,
{
    if at > 0 {
        lemma_last_hashed(chunk, hash, (at - 1) as nat);
    }
}

/// Counts for how long the bytes at `a` and at `b` agree.
pub fn common_prefix_length(chunk: &[u8], a: usize, b: usize) -> (result: usize)
    requires
        a <= b <= chunk@.len(),
    ensures
        result == common_length(chunk@, a as nat, b as nat),
        b + result <= chunk@.len(),
{
    let mut n: usize = 0;
    while n < chunk.len() - b && chunk[a + n] == chunk[b + n]
        invariant
            a <= b,
            b + n <= chunk@.len(),
            n + common_length(chunk@, (a + n) as nat, (b + n) as nat) == common_length(
                chunk@,
                a as nat,
                b as nat,
            ),
        decreases chunk@.len() - b - n,
    {
        n = n + 1;
    }
    n
}

/// Hashes the four bytes at `at`.
pub fn hash_four_bytes(chunk: &[u8], at: usize) -> (result: usize)
    requires
        at + 4 <= chunk@.len(),
    ensures
        result == four_byte_hash(chunk@, at as nat),
        result < 0x10000,
{
    let value: u64 = chunk[at] as u64 + chunk[at + 1] as u64 * 256 + chunk[at + 2] as u64 * 0x10000
        + chunk[at + 3] as u64 * 0x100_0000;
    (((value * 0x9e37_79b1) % 0x1_0000_0000) / 0x10000) as usize
}

/// Finds for each place the last one before it with the same hash.
pub fn build_previous_matches(chunk: &[u8]) -> (result: Vec<Option<usize>>)
    ensures
        result@.len() == chunk@.len(),
        forall|p: int|
            0 <= p < chunk@.len() ==> match #[trigger] result@[p] {
                None => previous_match(chunk@, p as nat) is None,
                Some(q) => previous_match(chunk@, p as nat) == Some(q as nat) && q < p,
            },
{
    let mut latest: Vec<Option<usize>> = Vec::new();
    while latest.len() < 0x10000
        invariant
            latest@.len() <= 0x10000,
            forall|k: int| 0 <= k < latest@.len() ==> #[trigger] latest@[k] is None,
        decreases 0x10000 - latest@.len(),
    {
        latest.push(None);
    }
    let mut result: Vec<Option<usize>> = Vec::new();
    let mut p: usize = 0;
    while p < chunk.len()
        invariant
            p <= chunk@.len(),
            result@.len() == p,
            latest@.len() == 0x10000,
            p + 3 < chunk@.len() || p == 0 ==> forall|k: int|
                0 <= k < 0x10000 ==> match #[trigger] latest@[k] {
                    None => last_hashed(chunk@, k as nat, p as nat) is None,
                    Some(q) => last_hashed(chunk@, k as nat, p as nat) == Some(q as nat) && q < p,
                },
            forall|i: int|
                0 <= i < p ==> match #[trigger] result@[i] {
                    None => previous_match(chunk@, i as nat) is None,
                    Some(q) => previous_match(chunk@, i as nat) == Some(q as nat) && q < i,
                },
        decreases chunk@.len() - p,
    {
        if chunk.len() - p >= 4 {
            let key: usize = hash_four_bytes(chunk, p);
            let found: Option<usize> = latest[key];
            result.push(found);
            latest.set(key, Some(p));
        } else {
            result.push(None);
        }
        p = p + 1;
    }
    result
}

/// The longer of two matches, the first one if they are alike.
pub open spec fn longer(first: (nat, nat), second: (nat, nat)) -> (nat, nat) {
    if second.1 > first.1 {
        second
    } else {
        first
    }
}

/// The match at `distance` before `at`, or an empty one.
pub open spec fn match_at(chunk: Seq<u8>, at: nat, distance: nat) -> (nat, nat) {
    if at >= distance {
        (distance, common_length(chunk, (at - distance) as nat, at))
    } else {
        (0, 0)
    }
}

/// The longest match at `at` among the recent distances and that of the last
/// place with the same hash.
pub open spec fn best_match(chunk: Seq<u8>, at: nat, recent: (nat, nat, nat)) -> (nat, nat) {
    let first = longer((0, 0), match_at(chunk, at, recent.0));
    let second = longer(first, match_at(chunk, at, recent.1));
    let third = longer(second, match_at(chunk, at, recent.2));
    match previous_match(chunk, at) {
        None => third,
        Some(prior) => if distance_ok((at - prior) as nat) {
            longer(third, match_at(chunk, at, (at - prior) as nat))
        } else {
            third
        },
    }
}

fn longer_match(chunk: &[u8], at: usize, distance: usize, best: (usize, usize)) -> (result: (
    usize,
    usize,
))
    requires
        at <= chunk@.len(),
        at + best.1 <= chunk@.len(),
    ensures
        (result.0 as nat, result.1 as nat) == longer(
            (best.0 as nat, best.1 as nat),
            match_at(chunk@, at as nat, distance as nat),
        ),
        at + result.1 <= chunk@.len(),
{
    if at >= distance {
        let length: usize = common_prefix_length(chunk, at - distance, at);
        if length > best.1 {
            return (distance, length);
        }
    }
    best
}

/// Finds the longest match at `at`.
fn find_best_match(
    chunk: &[u8],
    previous: &[Option<usize>],
    at: usize,
    recent: (usize, usize, usize),
) -> (result: (usize, usize))
    requires
        at < chunk@.len(),
        previous@.len() == chunk@.len(),
        match previous@[at as int] {
            None => previous_match(chunk@, at as nat) is None,
            Some(q) => previous_match(chunk@, at as nat) == Some(q as nat) && q < at,
        },
    ensures
        (result.0 as nat, result.1 as nat) == best_match(
            chunk@,
            at as nat,
            (recent.0 as nat, recent.1 as nat, recent.2 as nat),
        ),
        at + result.1 <= chunk@.len(),
{
    let mut best: (usize, usize) = longer_match(chunk, at, recent.0, (0, 0));
    best = longer_match(chunk, at, recent.1, best);
    best = longer_match(chunk, at, recent.2, best);
    match previous[at] {
        Some(prior) => {
            let distance: usize = at - prior;
            if 8 <= distance && distance <= 0x3fff {
                best = longer_match(chunk, at, distance, best);
            }
        },
        None => {},
    }
    best
}

// ---------------------------------------------------------------------------
// Commands
// ---------------------------------------------------------------------------

/// What has been written of a chunk.
pub struct LzParse {
    /// The next byte to look at.
    pub position: nat,
    /// The first byte that no command covers.
    pub literal_start: nat,
    pub literals: Seq<u8>,
    pub commands: Seq<u8>,
    /// The distances that were written out.
    pub distances: Seq<usize>,
    /// The lengths that did not fit into a command.
    pub longs: Seq<usize>,
    /// The three distances used last.
    pub recent: (nat, nat, nat),
}

/// Before anything of a chunk is written.
pub open spec fn parse_start(start: nat) -> LzParse {
    LzParse {
        position: start,
        literal_start: start,
        literals: seq![],
        commands: seq![],
        distances: seq![],
        longs: seq![],
        recent: (8, 8, 8),
    }
}

/// Which of the recent distances this is; 3 if it is none of them.
pub open spec fn recent_index(recent: (nat, nat, nat), distance: nat) -> nat {
    if distance == recent.0 {
        0
    } else if distance == recent.1 {
        1
    } else if distance == recent.2 {
        2
    } else {
        3
    }
}

/// The recent distances after one of them, or a new one, was used.
pub open spec fn used_recent(recent: (nat, nat, nat), index: nat, distance: nat) -> (nat, nat, nat) {
    if index == 0 {
        recent
    } else if index == 1 {
        (recent.1, recent.0, recent.2)
    } else if index == 2 {
        (recent.2, recent.0, recent.1)
    } else {
        (distance, recent.0, recent.1)
    }
}

/// The lengths that a command with these counts leaves for the long lengths.
pub open spec fn long_counts(literal_length: nat, match_length: nat) -> Seq<usize> {
    let first = if literal_length < 3 {
        seq![]
    } else {
        seq![literal_length as usize]
    };
    if match_length <= 16 {
        first
    } else {
        first.push((match_length - 14) as usize)
    }
}

/// The byte of a command.
pub open spec fn command_byte(index: nat, literal_length: nat, match_length: nat) -> u8 {
    (index * 64 + (if match_length <= 16 {
        match_length - 2
    } else {
        15
    }) * 4 + (if literal_length < 3 {
        literal_length as int
    } else {
        3
    })) as u8
}

/// Writes a command: the literals up to here and a match.
pub open spec fn emit(parse: LzParse, chunk: Seq<u8>, index: nat, distance: nat, length: nat) -> LzParse {
    let literal_length = (parse.position - parse.literal_start) as nat;
    LzParse {
        position: parse.position + length,
        literal_start: parse.position + length,
        literals: parse.literals + chunk.subrange(
            parse.literal_start as int,
            parse.position as int,
        ),
        commands: parse.commands.push(command_byte(index, literal_length, length)),
        distances: if index == 3 {
            parse.distances.push(distance as usize)
        } else {
            parse.distances
        },
        longs: parse.longs + long_counts(literal_length, length),
        recent: used_recent(parse.recent, index, distance),
    }
}

/// Moves on by a byte.
pub open spec fn skip(parse: LzParse) -> LzParse {
    LzParse { position: parse.position + 1, ..parse }
}

/// Looks at the next byte: writes its best match, if that is long enough.
pub open spec fn greedy_step(parse: LzParse, chunk: Seq<u8>) -> LzParse {
    let (distance, length) = best_match(chunk, parse.position, parse.recent);
    if length < 4 {
        skip(parse)
    } else {
        emit(parse, chunk, recent_index(parse.recent, distance), distance, length)
    }
}

/// Looks at the next byte: writes its match at a fixed distance, if that is
/// long enough.
pub open spec fn stable_step(parse: LzParse, chunk: Seq<u8>, distance: nat) -> LzParse {
    let length = match_at(chunk, parse.position, distance).1;
    if length < 4 {
        skip(parse)
    } else {
        emit(
            parse,
            chunk,
            if parse.commands.len() == 0 {
                3
            } else {
                0
            },
            distance,
            length,
        )
    }
}

/// A match that is no lie: the bytes at its distance agree for its length.
pub open spec fn match_ok(chunk: Seq<u8>, at: nat, found: (nat, nat)) -> bool {
    &&& at + found.1 <= chunk.len()
    &&& found.1 > 0 ==> found.0 <= at
    &&& forall|k: int| 0 <= k < found.1 ==> chunk[at - found.0 + k] == #[trigger] chunk[at + k]
}

pub proof fn lemma_match_at(chunk: Seq<u8>, at: nat, distance: nat)
    requires
        at <= chunk.len(),
    ensures
        match_ok(chunk, at, match_at(chunk, at, distance)),
        match_at(chunk, at, distance).1 > 0 ==> match_at(chunk, at, distance).0 == distance,
{
    if at >= distance {
        lemma_common_length(chunk, (at - distance) as nat, at);
    }
}

/// The best match is one, at a recent distance or at one that may be written.
pub proof fn lemma_best_match(chunk: Seq<u8>, at: nat, recent: (nat, nat, nat))
    requires
        at <= chunk.len(),
    ensures
        match_ok(chunk, at, best_match(chunk, at, recent)),
        best_match(chunk, at, recent).1 > 0 ==> recent_index(
            recent,
            best_match(chunk, at, recent).0,
        ) < 3 || distance_ok(best_match(chunk, at, recent).0),
{
    lemma_match_at(chunk, at, recent.0);
    lemma_match_at(chunk, at, recent.1);
    lemma_match_at(chunk, at, recent.2);
    match previous_match(chunk, at) {
        None => {},
        Some(prior) => {
            lemma_last_hashed(chunk, four_byte_hash(chunk, at), at);
            lemma_match_at(chunk, at, (at - prior) as nat);
        },
    }
}

pub proof fn lemma_greedy_step(parse: LzParse, chunk: Seq<u8>)
    requires
        parse.position < chunk.len(),
    ensures
        parse.position < greedy_step(parse, chunk).position <= chunk.len(),
{
    lemma_best_match(chunk, parse.position, parse.recent);
}

/// Writes the rest of a chunk, each match at its best.
pub open spec fn greedy_parse(parse: LzParse, chunk: Seq<u8>) -> LzParse
    decreases chunk.len() - parse.position,
{
    if parse.position + 4 > chunk.len() {
        parse
    } else {
        proof {
            lemma_greedy_step(parse, chunk);
        }
        greedy_parse(greedy_step(parse, chunk), chunk)
    }
}

/// Writes the rest of a chunk, all matches at one distance.
pub open spec fn stable_parse(parse: LzParse, chunk: Seq<u8>, distance: nat) -> LzParse
    decreases chunk.len() - parse.position,
{
    if parse.position + 4 > chunk.len() {
        parse
    } else {
        proof {
            lemma_match_at(chunk, parse.position, distance);
        }
        stable_parse(stable_step(parse, chunk, distance), chunk, distance)
    }
}

/// The distance of the first place, from `at` on, that repeats an earlier one to
/// the end of the chunk.
pub open spec fn stable_distance(chunk: Seq<u8>, start: nat, at: nat) -> Option<nat>
    decreases chunk.len() - at,
{
    if at + 4 > chunk.len() {
        None
    } else {
        match previous_match(chunk, at) {
            Some(prior) => if at >= start && distance_ok((at - prior) as nat) && common_length(
                chunk,
                prior,
                at,
            ) == chunk.len() - at {
                Some((at - prior) as nat)
            } else {
                stable_distance(chunk, start, at + 1)
            },
            None => stable_distance(chunk, start, at + 1),
        }
    }
}

// ---------------------------------------------------------------------------
// Payloads
// ---------------------------------------------------------------------------

/// How many extra bits the offset code of a distance has.
pub open spec fn offset_width(distance: nat) -> nat {
    (writers::log2(distance + 8) - 3) as nat
}

/// The byte of an offset code.
pub open spec fn offset_code(distance: nat) -> u8 {
    let width = offset_width(distance);
    (8 * width + (distance + 8) / pow2(width) - 8) as u8
}

/// The extra bits of an offset code, as a number.
pub open spec fn offset_extra(distance: nat) -> nat {
    (distance + 8) % pow2(offset_width(distance))
}

/// The bytes of the offset codes.
pub open spec fn offset_codes(distances: Seq<usize>) -> Seq<u8> {
    distances.map_values(|d: usize| offset_code(d as nat))
}

/// A long length as a byte; 255 announces an extended length.
pub open spec fn length_codes(longs: Seq<usize>) -> Seq<u8> {
    longs.map_values(
        |l: usize|
            if l < 258 {
                (l - 3) as u8
            } else {
                255u8
            },
    )
}

/// The extended lengths.
pub open spec fn extended_of(longs: Seq<usize>) -> Seq<usize>
    decreases longs.len(),
{
    if longs.len() == 0 {
        seq![]
    } else if longs.last() < 258 {
        extended_of(longs.drop_last())
    } else {
        extended_of(longs.drop_last()).push((longs.last() - 258) as usize)
    }
}

/// The extra bits of the first `n` offset codes with this parity.
pub open spec fn offset_bits(distances: Seq<usize>, n: nat, parity: int) -> Seq<bool>
    decreases n,
{
    if n == 0 {
        seq![]
    } else {
        let before = offset_bits(distances, (n - 1) as nat, parity);
        if (n - 1) % 2 == parity {
            let d = distances[n - 1] as nat;
            before + bits::value_bits(offset_extra(d), offset_width(d))
        } else {
            before
        }
    }
}

/// The bits of the first `n` extended lengths with this parity.
pub open spec fn length_bits(extended: Seq<usize>, n: nat, parity: int) -> Seq<bool>
    decreases n,
{
    if n == 0 {
        seq![]
    } else {
        let before = length_bits(extended, (n - 1) as nat, parity);
        if (n - 1) % 2 == parity {
            before + writers::extended_bits(extended[n - 1] as nat)
        } else {
            before
        }
    }
}

/// The bits that are read from the front of the suffix.
pub open spec fn front_bits(distances: Seq<usize>, extended: Seq<usize>) -> Seq<bool> {
    offset_bits(distances, distances.len(), 0) + length_bits(extended, extended.len(), 0)
}

/// The bits that are read from the back of the suffix.
pub open spec fn back_bits(distances: Seq<usize>, extended: Seq<usize>) -> Seq<bool> {
    writers::gamma_bits(extended.len() + 1) + offset_bits(distances, distances.len(), 1)
        + length_bits(extended, extended.len(), 1)
}

/// The bits after all arrays of a chunk.
pub open spec fn suffix_bytes(distances: Seq<usize>, extended: Seq<usize>) -> Seq<u8> {
    bits::msb_pack(front_bits(distances, extended)) + bits::msb_pack(
        back_bits(distances, extended),
    ).reverse()
}

/// The bytes of a chunk that has been parsed to its end.
pub open spec fn chunk_bytes(chunk: Seq<u8>, parse: LzParse, history: nat) -> Seq<u8> {
    chunk.subrange(0, history as int) + stored(
        parse.literals + chunk.subrange(parse.literal_start as int, chunk.len() as int),
    ) + stored(parse.commands) + seq![128u8] + stored(offset_codes(parse.distances)) + stored(
        length_codes(parse.longs),
    ) + suffix_bytes(parse.distances, extended_of(parse.longs))
}

/// The bytes of a parsed chunk, if it has a command and they are fewer than the
/// chunk's own.
pub open spec fn smaller_chunk(chunk: Seq<u8>, parse: LzParse, history: nat) -> Option<Seq<u8>> {
    if parse.commands.len() == 0 || chunk_bytes(chunk, parse, history).len() >= chunk.len() {
        None
    } else {
        Some(chunk_bytes(chunk, parse, history))
    }
}

/// How many plain bytes a chunk starts with.
pub open spec fn history_len(first: bool) -> nat {
    if first {
        8
    } else {
        0
    }
}

/// A chunk with each match at its best.
#[verifier::opaque]
pub open spec fn greedy_chunk(chunk: Seq<u8>, first: bool) -> Option<Seq<u8>> {
    let start = history_len(first);
    if chunk.len() < start + 8 {
        None
    } else {
        smaller_chunk(chunk, greedy_parse(parse_start(start), chunk), start)
    }
}

/// A chunk with all matches at one distance, if it repeats itself to its end.
#[verifier::opaque]
pub open spec fn stable_chunk(chunk: Seq<u8>, first: bool) -> Option<Seq<u8>> {
    let start = history_len(first);
    if chunk.len() < start + 8 {
        None
    } else {
        match stable_distance(chunk, start, 0) {
            None => None,
            Some(distance) => smaller_chunk(
                chunk,
                stable_parse(parse_start(start), chunk, distance),
                start,
            ),
        }
    }
}

// ---------------------------------------------------------------------------
// Encoding
// ---------------------------------------------------------------------------

/// Computes the offset code of a distance: its byte, its extra bits as a number
/// and how many they are.
pub fn encode_scaled_offset(distance: usize) -> (result: Option<(u8, u32, u8)>)
    ensures
        match result {
            None => distance < 8 || distance >= 0x4000_0000 - 8,
            Some(code) => {
                &&& 8 <= distance < 0x4000_0000 - 8
                &&& code.0 == offset_code(distance as nat)
                &&& code.1 == offset_extra(distance as nat)
                &&& code.2 == offset_width(distance as nat)
                &&& code.2 <= 26
            },
        },
{
    if distance < 8 || distance >= 0x4000_0000 - 8 {
        return None;
    }
    let value: usize = distance + 8;
    let log: u32 = ilog2(value);
    proof {
        lemma_offset_width(distance as nat);
    }
    let width: u32 = log - 3;
    let size: usize = power_of_two(width as usize);
    Some(((8 * width as usize + value / size - 8) as u8, (value % size) as u32, width as u8))
}

/// The parts of an offset code are in range and give the distance back.
pub proof fn lemma_offset_width(distance: nat)
    requires
        8 <= distance < 0x4000_0000 - 8,
    ensures
        4 <= writers::log2(distance + 8) <= 29,
        8 <= (distance + 8) / pow2(offset_width(distance)) <= 15,
        offset_extra(distance) < pow2(offset_width(distance)),
        distance + 8 == ((distance + 8) / pow2(offset_width(distance))) * pow2(
            offset_width(distance),
        ) + offset_extra(distance),
{
    let value = distance + 8;
    writers::lemma_log2(value);
    lemma2_to64();
    let log = writers::log2(value);
    if log < 4 {
        if log + 1 < 4 {
            lemma_pow2_strictly_increases(log + 1, 4);
        }
        assert(false);
    }
    if log > 29 {
        if log > 30 {
            lemma_pow2_strictly_increases(30, log);
        }
        assert(false);
    }
    let width = (log - 3) as nat;
    let size = pow2(width);
    lemma_pow2_pos(width);
    vstd::arithmetic::power2::lemma_pow2_adds(width, 3);
    vstd::arithmetic::power2::lemma_pow2_adds(width, 4);
    vstd::arithmetic::div_mod::lemma_fundamental_div_mod(value as int, size as int);
    let q = value / size;
    assert(8 <= q <= 15) by (nonlinear_arith)
        requires
            size > 0,
            size * 8 <= value,
            value < size * 16,
            q == value / size,
    ;
    assert(q * size == size * q) by (nonlinear_arith);
}

fn pack_offset_codes(distances: &[usize]) -> (result: Vec<u8>)
    requires
        forall|i: int| 0 <= i < distances@.len() ==> distance_ok(#[trigger] distances@[i] as nat),
    ensures
        result@ == offset_codes(distances@),
{
    let mut result: Vec<u8> = Vec::new();
    let mut i: usize = 0;
    while i < distances.len()
        invariant
            i <= distances@.len(),
            forall|k: int|
                0 <= k < distances@.len() ==> distance_ok(#[trigger] distances@[k] as nat),
            result@ =~= offset_codes(distances@).subrange(0, i as int),
        decreases distances@.len() - i,
    {
        assert(distance_ok(distances@[i as int] as nat));
        match encode_scaled_offset(distances[i]) {
            Some(code) => result.push(code.0),
            None => {},
        }
        i = i + 1;
    }
    assert(result@ =~= offset_codes(distances@));
    result
}

fn pack_length_codes(longs: &[usize]) -> (result: (Vec<u8>, Vec<usize>))
    requires
        forall|i: int| 0 <= i < longs@.len() ==> #[trigger] longs@[i] >= 3,
    ensures
        result.0@ == length_codes(longs@),
        result.1@ == extended_of(longs@),
{
    let mut codes: Vec<u8> = Vec::new();
    let mut extended: Vec<usize> = Vec::new();
    let mut i: usize = 0;
    assert(longs@.subrange(0, 0) =~= Seq::<usize>::empty());
    while i < longs.len()
        invariant
            i <= longs@.len(),
            forall|k: int| 0 <= k < longs@.len() ==> #[trigger] longs@[k] >= 3,
            codes@ =~= length_codes(longs@).subrange(0, i as int),
            extended@ == extended_of(longs@.subrange(0, i as int)),
        decreases longs@.len() - i,
    {
        let length: usize = longs[i];
        proof {
            assert(longs@.subrange(0, i + 1).drop_last() =~= longs@.subrange(0, i as int));
        }
        if length < 258 {
            codes.push((length - 3) as u8);
        } else {
            codes.push(255);
            extended.push(length - 258);
        }
        i = i + 1;
    }
    assert(codes@ =~= length_codes(longs@));
    assert(longs@.subrange(0, longs@.len() as int) =~= longs@);
    (codes, extended)
}

proof fn lemma_tier_small(value: nat)
    requires
        value <= 0x2_0000,
    ensures
        writers::tier_of(value, 0) <= 11,
{
    lemma2_to64();
    assert(writers::tier_base(0) == 0);
    writers::lemma_tier_of(value, 0);
    if writers::tier_of(value, 0) > 11 {
        if writers::tier_of(value, 0) > 12 {
            lemma_pow2_strictly_increases(12, writers::tier_of(value, 0));
        }
    }
}

proof fn lemma_offset_bits_len(distances: Seq<usize>, n: nat, parity: int)
    requires
        n <= distances.len(),
        forall|i: int| 0 <= i < distances.len() ==> distance_ok(#[trigger] distances[i] as nat),
    ensures
        offset_bits(distances, n, parity).len() <= 26 * n,
    decreases n,
{
    if n > 0 {
        lemma_offset_bits_len(distances, (n - 1) as nat, parity);
        let d = distances[n - 1] as nat;
        assert(distance_ok(d));
        lemma_offset_width(d);
        bits::lemma_value_bits_len(offset_extra(d), offset_width(d));
    }
}

/// Appends the bits after all arrays of a chunk.
fn append_lz_suffix(output: &mut Vec<u8>, distances: &[usize], extended: &[usize])
    requires
        distances@.len() <= 0x2_0000,
        extended@.len() <= 0x2_0000,
        forall|i: int| 0 <= i < distances@.len() ==> distance_ok(#[trigger] distances@[i] as nat),
        forall|i: int| 0 <= i < extended@.len() ==> #[trigger] extended@[i] <= 0x2_0000,
    ensures
        final(output)@ == old(output)@ + suffix_bytes(distances@, extended@),
{
    let mut front = MsbBits::new();
    let mut back = MsbBits::new();
    back.push_gamma(extended.len() + 1);
    let ghost gamma = back.bits();
    proof {
        writers::lemma_gamma_len(extended@.len() + 1);
        assert(front.bits() =~= offset_bits(distances@, 0, 0));
        assert(gamma =~= writers::gamma_bits(extended@.len() + 1));
        assert(back.bits() =~= gamma + offset_bits(distances@, 0, 1));
    }
    let mut i: usize = 0;
    while i < distances.len()
        invariant
            i <= distances@.len() <= 0x2_0000,
            forall|k: int|
                0 <= k < distances@.len() ==> distance_ok(#[trigger] distances@[k] as nat),
            front.wf(),
            back.wf(),
            gamma.len() <= 100,
            front.bits() == offset_bits(distances@, i as nat, 0),
            back.bits() == gamma + offset_bits(distances@, i as nat, 1),
        decreases distances@.len() - i,
    {
        assert(distance_ok(distances@[i as int] as nat));
        proof {
            lemma_offset_bits_len(distances@, i as nat, 0);
            lemma_offset_bits_len(distances@, i as nat, 1);
        }
        let ghost before = offset_bits(distances@, i as nat, 1);
        match encode_scaled_offset(distances[i]) {
            Some(code) => if i % 2 == 0 {
                front.push_value(code.1, code.2 as u32);
            } else {
                back.push_value(code.1, code.2 as u32);
                assert(back.bits() =~= gamma + (before + bits::value_bits(
                    code.1 as nat,
                    code.2 as nat,
                )));
            },
            None => {},
        }
        i = i + 1;
    }
    let ghost front_offsets = front.bits();
    let ghost back_offsets = back.bits();
    proof {
        lemma_offset_bits_len(distances@, distances@.len(), 0);
        lemma_offset_bits_len(distances@, distances@.len(), 1);
        assert(front.bits() =~= front_offsets + length_bits(extended@, 0, 0));
        assert(back.bits() =~= back_offsets + length_bits(extended@, 0, 1));
    }
    let mut i: usize = 0;
    while i < extended.len()
        invariant
            i <= extended@.len() <= 0x2_0000,
            forall|k: int| 0 <= k < extended@.len() ==> #[trigger] extended@[k] <= 0x2_0000,
            front.wf(),
            back.wf(),
            front.bits() == front_offsets + length_bits(extended@, i as nat, 0),
            back.bits() == back_offsets + length_bits(extended@, i as nat, 1),
            front.bits().len() <= 0x34_0000 + 100 + 40 * i,
            back.bits().len() <= 0x34_0000 + 100 + 40 * i,
        decreases extended@.len() - i,
    {
        proof {
            let e = extended@[i as int] as nat;
            assert(e <= 0x2_0000);
            lemma_tier_small(e);
            let tier = writers::tier_of(e, 0);
            bits::lemma_value_bits_len((e - writers::tier_base(tier)) as nat, tier + 6);
            assert(writers::extended_bits(e).len() <= 40);
            assert(front_offsets + (length_bits(extended@, i as nat, 0) + writers::extended_bits(e))
                =~= front.bits() + writers::extended_bits(e));
            assert(back_offsets + (length_bits(extended@, i as nat, 1) + writers::extended_bits(e))
                =~= back.bits() + writers::extended_bits(e));
        }
        if i % 2 == 0 {
            front.push_extended_length(extended[i]);
        } else {
            back.push_extended_length(extended[i]);
        }
        i = i + 1;
    }
    proof {
        assert(back.bits() =~= back_bits(distances@, extended@));
        assert(front.bits() =~= front_bits(distances@, extended@));
    }
    let front_bytes: Vec<u8> = front.finish();
    let back_bytes: Vec<u8> = back.finish();
    append(output, &front_bytes);
    append_reversed(output, &back_bytes);
    proof {
        assert(output@ =~= old(output)@ + suffix_bytes(distances@, extended@));
    }
}

/// Appends bytes, the last one first.
pub fn append_reversed(output: &mut Vec<u8>, bytes: &[u8])
    ensures
        final(output)@ == old(output)@ + bytes@.reverse(),
{
    let ghost start = output@;
    let mut left: usize = bytes.len();
    assert(start + bytes@.reverse().subrange(0, 0) =~= start);
    while left > 0
        invariant
            left <= bytes@.len(),
            output@ == start + bytes@.reverse().subrange(0, bytes@.len() - left),
        decreases left,
    {
        left = left - 1;
        output.push(bytes[left]);
        assert(output@ =~= start + bytes@.reverse().subrange(0, bytes@.len() - left));
    }
    assert(bytes@.reverse().subrange(0, bytes@.len() as int) =~= bytes@.reverse());
}

/// A chunk that is being written.
struct LzWriter {
    position: usize,
    literal_start: usize,
    literals: Vec<u8>,
    commands: Vec<u8>,
    distances: Vec<usize>,
    longs: Vec<usize>,
    recent: (usize, usize, usize),
}

impl LzWriter {
    /// What has been written.
    spec fn parse(&self) -> LzParse {
        LzParse {
            position: self.position as nat,
            literal_start: self.literal_start as nat,
            literals: self.literals@,
            commands: self.commands@,
            distances: self.distances@,
            longs: self.longs@,
            recent: (self.recent.0 as nat, self.recent.1 as nat, self.recent.2 as nat),
        }
    }

    /// Everything is within bounds.
    spec fn wf(&self, chunk: Seq<u8>) -> bool {
        &&& chunk.len() <= CHUNK_SIZE
        &&& self.literal_start <= self.position <= chunk.len()
        &&& self.literals@.len() <= self.literal_start
        &&& self.commands@.len() <= self.literal_start
        &&& self.distances@.len() <= self.commands@.len()
        &&& self.longs@.len() <= self.literal_start
        &&& forall|i: int|
            0 <= i < self.distances@.len() ==> distance_ok(#[trigger] self.distances@[i] as nat)
        &&& forall|i: int|
            0 <= i < self.longs@.len() ==> 3 <= #[trigger] self.longs@[i] <= 0x2_0000
    }

    fn new(start: usize) -> (result: Self)
        ensures
            result.parse() == parse_start(start as nat),
            forall|chunk: Seq<u8>|
                start <= chunk.len() <= CHUNK_SIZE ==> #[trigger] result.wf(chunk),
    {
        LzWriter {
            position: start,
            literal_start: start,
            literals: Vec::new(),
            commands: Vec::new(),
            distances: Vec::new(),
            longs: Vec::new(),
            recent: (8, 8, 8),
        }
    }

    /// Writes a command.
    fn emit(&mut self, chunk: &[u8], index: u8, distance: usize, length: usize)
        requires
            old(self).wf(chunk@),
            index <= 3,
            index == 3 ==> distance_ok(distance as nat),
            4 <= length,
            old(self).position + length <= chunk@.len(),
        ensures
            final(self).wf(chunk@),
            final(self).parse() == emit(
                old(self).parse(),
                chunk@,
                index as nat,
                distance as nat,
                length as nat,
            ),
    {
        let ghost before = self.parse();
        let literal_length: usize = self.position - self.literal_start;
        append(&mut self.literals, part(chunk, self.literal_start, self.position));
        let literal_code: u8 = if literal_length < 3 {
            literal_length as u8
        } else {
            self.longs.push(literal_length);
            3
        };
        let match_code: u8 = if length <= 16 {
            (length - 2) as u8
        } else {
            self.longs.push(length - 14);
            15
        };
        proof {
            assert(self.longs@ =~= before.longs + long_counts(
                literal_length as nat,
                length as nat,
            ));
        }
        self.commands.push(index * 64 + match_code * 4 + literal_code);
        let recent: (usize, usize, usize) = self.recent;
        if index == 1 {
            self.recent = (recent.1, recent.0, recent.2);
        } else if index == 2 {
            self.recent = (recent.2, recent.0, recent.1);
        } else if index == 3 {
            self.recent = (distance, recent.0, recent.1);
            self.distances.push(distance);
        }
        self.position = self.position + length;
        self.literal_start = self.position;
    }

    /// Writes the bytes of the chunk, if they are fewer than its own.
    fn finish(self, chunk: &[u8], history: usize) -> (result: Option<Vec<u8>>)
        requires
            self.wf(chunk@),
            history <= self.literal_start,
        ensures
            match smaller_chunk(chunk@, self.parse(), history as nat) {
                None => result is None,
                Some(bytes) => result matches Some(r) && r@ == bytes,
            },
    {
        if self.commands.len() == 0 {
            return None;
        }
        let ghost parse = self.parse();
        let mut literals: Vec<u8> = self.literals;
        append(&mut literals, part(chunk, self.literal_start, chunk.len()));
        let mut output: Vec<u8> = to_vec(part(chunk, 0, history));
        encode_stored_array(&mut output, &literals);
        encode_stored_array(&mut output, &self.commands);
        output.push(128);
        let offset_codes: Vec<u8> = pack_offset_codes(&self.distances);
        encode_stored_array(&mut output, &offset_codes);
        let (length_codes, extended) = pack_length_codes(&self.longs);
        encode_stored_array(&mut output, &length_codes);
        proof {
            lemma_extended_of(parse.longs, 0x2_0000);
        }
        append_lz_suffix(&mut output, &self.distances, &extended);
        proof {
            assert(output@ =~= chunk_bytes(chunk@, parse, history as nat));
        }
        if output.len() < chunk.len() {
            Some(output)
        } else {
            None
        }
    }
}

pub proof fn lemma_extended_of(longs: Seq<usize>, bound: nat)
    requires
        forall|i: int| 0 <= i < longs.len() ==> #[trigger] longs[i] <= bound,
    ensures
        extended_of(longs).len() <= longs.len(),
        forall|i: int| 0 <= i < extended_of(longs).len() ==> #[trigger] extended_of(longs)[i]
            <= bound,
    decreases longs.len(),
{
    if longs.len() > 0 {
        assert forall|i: int| 0 <= i < longs.drop_last().len() implies #[trigger] longs.drop_last()[i]
            <= bound by {
            assert(longs[i] <= bound);
        }
        lemma_extended_of(longs.drop_last(), bound);
        assert(longs[longs.len() - 1] <= bound);
    }
}

/// Encodes a chunk with each match at its best. `has_initial_history` says that
/// the chunk is the first of its stream.
pub fn encode_greedy_lz_chunk(chunk: &[u8], has_initial_history: bool) -> (result: Option<Vec<u8>>)
    requires
        chunk@.len() <= CHUNK_SIZE,
    ensures
        match greedy_chunk(chunk@, has_initial_history) {
            None => result is None,
            Some(bytes) => result matches Some(r) && r@ == bytes,
        },
{
    reveal(greedy_chunk);
    let start: usize = if has_initial_history {
        8
    } else {
        0
    };
    if chunk.len() < start + 8 {
        return None;
    }
    let previous: Vec<Option<usize>> = build_previous_matches(chunk);
    let mut writer = LzWriter::new(start);
    assert(writer.wf(chunk@));
    while chunk.len() - writer.position >= 4
        invariant
            writer.wf(chunk@),
            start <= writer.literal_start,
            start <= 8,
            previous@.len() == chunk@.len(),
            forall|p: int|
                0 <= p < chunk@.len() ==> match #[trigger] previous@[p] {
                    None => previous_match(chunk@, p as nat) is None,
                    Some(q) => previous_match(chunk@, p as nat) == Some(q as nat) && q < p,
                },
            greedy_parse(writer.parse(), chunk@) == greedy_parse(parse_start(start as nat), chunk@),
        decreases chunk@.len() - writer.position,
    {
        let ghost before = writer.parse();
        let (distance, length) = find_best_match(chunk, &previous, writer.position, writer.recent);
        proof {
            lemma_greedy_step(before, chunk@);
            lemma_best_match(chunk@, before.position, before.recent);
        }
        if length < 4 {
            writer.position = writer.position + 1;
        } else {
            let index: u8 = if distance == writer.recent.0 {
                0
            } else if distance == writer.recent.1 {
                1
            } else if distance == writer.recent.2 {
                2
            } else {
                3
            };
            writer.emit(chunk, index, distance, length);
        }
        assert(writer.parse() == greedy_step(before, chunk@));
    }
    writer.finish(chunk, start)
}

/// Encodes a chunk with all matches at one distance, if it repeats itself to its
/// end.
pub fn encode_stable_distance_lz_chunk(chunk: &[u8], has_initial_history: bool) -> (result: Option<
    Vec<u8>,
>)
    requires
        chunk@.len() <= CHUNK_SIZE,
    ensures
        match stable_chunk(chunk@, has_initial_history) {
            None => result is None,
            Some(bytes) => result matches Some(r) && r@ == bytes,
        },
{
    reveal(stable_chunk);
    let start: usize = if has_initial_history {
        8
    } else {
        0
    };
    if chunk.len() < start + 8 {
        return None;
    }
    let distance: usize = match find_stable_distance(chunk, start) {
        Some(distance) => distance,
        None => return None,
    };
    let mut writer = LzWriter::new(start);
    assert(writer.wf(chunk@));
    while chunk.len() - writer.position >= 4
        invariant
            writer.wf(chunk@),
            start <= writer.literal_start,
            start <= 8,
            distance_ok(distance as nat),
            stable_parse(writer.parse(), chunk@, distance as nat) == stable_parse(
                parse_start(start as nat),
                chunk@,
                distance as nat,
            ),
        decreases chunk@.len() - writer.position,
    {
        let ghost before = writer.parse();
        proof {
            lemma_match_at(chunk@, before.position, distance as nat);
        }
        let length: usize = if writer.position < distance {
            0
        } else {
            common_prefix_length(chunk, writer.position - distance, writer.position)
        };
        if length < 4 {
            writer.position = writer.position + 1;
        } else {
            let index: u8 = if writer.commands.len() == 0 {
                3
            } else {
                0
            };
            writer.emit(chunk, index, distance, length);
        }
        assert(writer.parse() == stable_step(before, chunk@, distance as nat));
    }
    writer.finish(chunk, start)
}

fn find_stable_distance(chunk: &[u8], start: usize) -> (result: Option<usize>)
    ensures
        match stable_distance(chunk@, start as nat, 0) {
            None => result is None,
            Some(distance) => (result matches Some(r) && r == distance) && distance_ok(distance),
        },
{
    let previous: Vec<Option<usize>> = build_previous_matches(chunk);
    let mut at: usize = 0;
    while chunk.len() - at >= 4
        invariant
            at <= chunk@.len(),
            previous@.len() == chunk@.len(),
            forall|p: int|
                0 <= p < chunk@.len() ==> match #[trigger] previous@[p] {
                    None => previous_match(chunk@, p as nat) is None,
                    Some(q) => previous_match(chunk@, p as nat) == Some(q as nat) && q < p,
                },
            stable_distance(chunk@, start as nat, at as nat) == stable_distance(
                chunk@,
                start as nat,
                0,
            ),
        decreases chunk@.len() - at,
    {
        match previous[at] {
            Some(prior) => {
                let distance: usize = at - prior;
                if at >= start && 8 <= distance && distance <= 0x3fff && common_prefix_length(
                    chunk,
                    prior,
                    at,
                ) == chunk.len() - at {
                    return Some(distance);
                }
            },
            None => {},
        }
        at = at + 1;
    }
    None
}

} // verus!
