//! LZ chunks: commands that copy literals and matches.

use super::arrays;
use super::arrays::decode_array;
use super::bits;
use super::cursor::Cursor;
use super::readers;
use super::readers::PairedBits;
use super::KrakenError;
use crate::sequence::{append, part};
use vstd::prelude::*;

verus! {

/// An error of a chunk at `offset`.
pub open spec fn bad(offset: nat) -> KrakenError {
    KrakenError::InvalidQuantum { offset: offset as usize }
}

// ---------------------------------------------------------------------------
// Side streams
// ---------------------------------------------------------------------------

/// One explicit offset: a distance if there is no scale, else a scaled offset
/// and its low digit.
pub open spec fn explicit_offset(
    bits: Seq<bool>,
    at: nat,
    other: nat,
    packed: u8,
    low: u8,
    scale: nat,
) -> Option<(i32, nat)> {
    if scale == 0 {
        match readers::paired_distance(bits, at, other, packed) {
            None => None,
            Some((distance, next)) => Some(((-distance) as i32, next)),
        }
    } else {
        match readers::paired_scaled_offset(bits, at, other, packed) {
            None => None,
            Some((raw, next)) => {
                let value = raw * scale - low;
                if value < i32::MIN || raw * scale < i32::MIN || value >= 0 {
                    None
                } else {
                    Some((value as i32, next))
                }
            },
        }
    }
}

/// The offsets after `offsets`, from the front and the back in turn.
pub open spec fn explicit_offsets(
    front: Seq<bool>,
    back: Seq<bool>,
    packed: Seq<u8>,
    low: Seq<u8>,
    scale: nat,
    front_at: nat,
    back_at: nat,
    offsets: Seq<i32>,
) -> Option<(Seq<i32>, nat, nat)>
    decreases packed.len() - offsets.len(),
{
    if offsets.len() >= packed.len() {
        Some((offsets, front_at, back_at))
    } else {
        let i = offsets.len() as int;
        let digit = if i < low.len() {
            low[i]
        } else {
            0
        };
        if i % 2 == 0 {
            match explicit_offset(front, front_at, back_at, packed[i], digit, scale) {
                None => None,
                Some((offset, next)) => explicit_offsets(
                    front,
                    back,
                    packed,
                    low,
                    scale,
                    next,
                    back_at,
                    offsets.push(offset),
                ),
            }
        } else {
            match explicit_offset(back, back_at, front_at, packed[i], digit, scale) {
                None => None,
                Some((offset, next)) => explicit_offsets(
                    front,
                    back,
                    packed,
                    low,
                    scale,
                    front_at,
                    next,
                    offsets.push(offset),
                ),
            }
        }
    }
}

/// `count` extended lengths, from the front and the back in turn.
pub open spec fn extended_lengths(
    front: Seq<bool>,
    back: Seq<bool>,
    count: nat,
    front_at: nat,
    back_at: nat,
    lengths: Seq<usize>,
) -> Option<(Seq<usize>, nat, nat)>
    decreases count - lengths.len(),
{
    if lengths.len() >= count {
        Some((lengths, front_at, back_at))
    } else if lengths.len() % 2 == 0 {
        match readers::paired_extended_length(front, front_at, back_at) {
            None => None,
            Some((value, next)) => extended_lengths(
                front,
                back,
                count,
                next,
                back_at,
                lengths.push(value as usize),
            ),
        }
    } else {
        match readers::paired_extended_length(back, back_at, front_at) {
            None => None,
            Some((value, next)) => extended_lengths(
                front,
                back,
                count,
                front_at,
                next,
                lengths.push(value as usize),
            ),
        }
    }
}

/// The long lengths after `lengths`: a packed 255 takes the next extended one.
pub open spec fn long_lengths(
    packed: Seq<u8>,
    extended: Seq<usize>,
    used: nat,
    lengths: Seq<usize>,
) -> Option<Seq<usize>>
    decreases packed.len() - lengths.len(),
{
    if lengths.len() >= packed.len() {
        if used == extended.len() {
            Some(lengths)
        } else {
            None
        }
    } else {
        let value = packed[lengths.len() as int];
        if value == 255 {
            if used >= extended.len() || extended[used as int] + 258 > usize::MAX {
                None
            } else {
                long_lengths(
                    packed,
                    extended,
                    used + 1,
                    lengths.push((extended[used as int] + 258) as usize),
                )
            }
        } else {
            long_lengths(packed, extended, used, lengths.push((value + 3) as usize))
        }
    }
}

/// Reads the explicit offsets of a chunk.
fn decode_explicit_offsets(
    bits: &mut PairedBits<'_>,
    packed_offsets: &[u8],
    low_digits: &[u8],
    offset_scale: usize,
    suffix_offset: usize,
) -> (result: Result<Vec<i32>, KrakenError>)
    requires
        old(bits).wf(),
        old(bits).offset() == suffix_offset,
        offset_scale <= 128,
    ensures
        final(bits).wf(),
        final(bits).same_source(old(bits)),
        match explicit_offsets(
            old(bits).front(),
            old(bits).back(),
            packed_offsets@,
            low_digits@,
            offset_scale as nat,
            old(bits).front_at(),
            old(bits).back_at(),
            seq![],
        ) {
            None => result == Err::<Vec<i32>, KrakenError>(bad(suffix_offset as nat)),
            Some((offsets, front_at, back_at)) => (result matches Ok(r) && r@ == offsets)
                && final(bits).front_at() == front_at && final(bits).back_at() == back_at,
        },
{
    let mut output: Vec<i32> = Vec::new();
    while output.len() < packed_offsets.len()
        invariant
            output@.len() <= packed_offsets@.len(),
            bits.wf(),
            bits.same_source(old(bits)),
            bits.offset() == suffix_offset,
            offset_scale <= 128,
            explicit_offsets(
                bits.front(),
                bits.back(),
                packed_offsets@,
                low_digits@,
                offset_scale as nat,
                bits.front_at(),
                bits.back_at(),
                output@,
            ) == explicit_offsets(
                old(bits).front(),
                old(bits).back(),
                packed_offsets@,
                low_digits@,
                offset_scale as nat,
                old(bits).front_at(),
                old(bits).back_at(),
                seq![],
            ),
        decreases packed_offsets@.len() - output@.len(),
    {
        let index: usize = output.len();
        let packed: u8 = packed_offsets[index];
        let stored: i32 = if offset_scale == 0 {
            let distance: usize = if index % 2 == 0 {
                bits.read_front_distance(packed)?
            } else {
                bits.read_back_distance(packed)?
            };
            -(distance as i32)
        } else {
            let raw: i32 = if index % 2 == 0 {
                bits.read_front_scaled_offset(packed)?
            } else {
                bits.read_back_scaled_offset(packed)?
            };
            let low: u8 = if index < low_digits.len() {
                low_digits[index]
            } else {
                0
            };
            proof {
                assert(-0x1_0000_0000_00 <= raw * offset_scale <= 0x400) by (nonlinear_arith)
                    requires
                        -0x8000_0000 <= raw <= 8,
                        1 <= offset_scale <= 128,
                ;
            }
            let scaled: i64 = raw as i64 * offset_scale as i64;
            let value: i64 = scaled - low as i64;
            if scaled < -0x8000_0000 || value < -0x8000_0000 || value >= 0 {
                return Err(KrakenError::InvalidQuantum { offset: suffix_offset });
            }
            value as i32
        };
        output.push(stored);
    }
    Ok(output)
}

fn read_extended_lengths(bits: &mut PairedBits<'_>, count: usize) -> (result: Result<
    Vec<usize>,
    KrakenError,
>)
    requires
        old(bits).wf(),
    ensures
        final(bits).wf(),
        final(bits).same_source(old(bits)),
        match extended_lengths(
            old(bits).front(),
            old(bits).back(),
            count as nat,
            old(bits).front_at(),
            old(bits).back_at(),
            seq![],
        ) {
            None => result == Err::<Vec<usize>, KrakenError>(old(bits).error()),
            Some((lengths, front_at, back_at)) => (result matches Ok(r) && r@ == lengths)
                && final(bits).front_at() == front_at && final(bits).back_at() == back_at,
        },
{
    let mut output: Vec<usize> = Vec::new();
    while output.len() < count
        invariant
            output@.len() <= count,
            bits.wf(),
            bits.same_source(old(bits)),
            extended_lengths(
                bits.front(),
                bits.back(),
                count as nat,
                bits.front_at(),
                bits.back_at(),
                output@,
            ) == extended_lengths(
                old(bits).front(),
                old(bits).back(),
                count as nat,
                old(bits).front_at(),
                old(bits).back_at(),
                seq![],
            ),
        decreases count - output@.len(),
    {
        let value: usize = if output.len() % 2 == 0 {
            bits.read_front_extended_length()?
        } else {
            bits.read_back_extended_length()?
        };
        output.push(value);
    }
    Ok(output)
}

/// Expands packed lengths.
fn expand_long_lengths(packed: &[u8], extended: &[usize], offset: usize) -> (result: Result<
    Vec<usize>,
    KrakenError,
>)
    ensures
        match long_lengths(packed@, extended@, 0, seq![]) {
            None => result == Err::<Vec<usize>, KrakenError>(bad(offset as nat)),
            Some(lengths) => result matches Ok(r) && r@ == lengths,
        },
{
    let mut used: usize = 0;
    let mut output: Vec<usize> = Vec::new();
    while output.len() < packed.len()
        invariant
            output@.len() <= packed@.len(),
            used <= extended@.len(),
            long_lengths(packed@, extended@, used as nat, output@) == long_lengths(
                packed@,
                extended@,
                0,
                seq![],
            ),
        decreases packed@.len() - output@.len(),
    {
        let value: u8 = packed[output.len()];
        if value == 255 {
            if used >= extended.len() || extended[used] > usize::MAX - 258 {
                return Err(KrakenError::InvalidQuantum { offset });
            }
            output.push(extended[used] + 258);
            used = used + 1;
        } else {
            output.push(value as usize + 3);
        }
    }
    if used != extended.len() {
        return Err(KrakenError::InvalidQuantum { offset });
    }
    Ok(output)
}

// ---------------------------------------------------------------------------
// Commands
// ---------------------------------------------------------------------------

/// What the commands of a chunk have done so far.
pub struct LzState {
    /// All output, from the start of the stream on.
    pub out: Seq<u8>,
    /// Literals used.
    pub literal: nat,
    /// Explicit offsets used.
    pub offset: nat,
    /// Long lengths used.
    pub length: nat,
    /// The three offsets used last.
    pub recent: (i32, i32, i32),
    /// The offset of the last match.
    pub last: i32,
}

/// Before the first command.
pub open spec fn lz_start(out: Seq<u8>) -> LzState {
    let eight = (-8) as i32;
    LzState { out, literal: 0, offset: 0, length: 0, recent: (eight, eight, eight), last: eight }
}

/// Copies `count` bytes from `distance` bytes back, one by one.
pub open spec fn copy_back(out: Seq<u8>, distance: nat, count: nat) -> Seq<u8>
    decreases count,
{
    if count == 0 {
        out
    } else {
        let before = copy_back(out, distance, (count - 1) as nat);
        before.push(before[before.len() - distance])
    }
}

/// Adds literals to what stands `distance` bytes back, one by one.
pub open spec fn add_literals(out: Seq<u8>, literals: Seq<u8>, distance: nat) -> Seq<u8>
    decreases literals.len(),
{
    if literals.len() == 0 {
        out
    } else {
        let before = add_literals(out, literals.drop_last(), distance);
        before.push(((literals.last() + before[before.len() - distance]) % 256) as u8)
    }
}

/// Copies the next `count` literals, or adds them to earlier output in mode 0.
pub open spec fn lz_literals(
    state: LzState,
    literals: Seq<u8>,
    count: nat,
    mode: u32,
    end: nat,
) -> Option<LzState> {
    if state.literal + count > literals.len() || state.out.len() + count > end {
        None
    } else {
        let source = literals.subrange(state.literal as int, (state.literal + count) as int);
        if mode != 0 {
            Some(LzState { out: state.out + source, literal: state.literal + count, ..state })
        } else if count > 0 && (state.last >= 0 || -state.last > state.out.len()) {
            None
        } else {
            Some(
                LzState {
                    out: add_literals(state.out, source, (-state.last) as nat),
                    literal: state.literal + count,
                    ..state
                },
            )
        }
    }
}

/// The number of literals that a command asks for.
pub open spec fn lz_literal_count(state: LzState, lengths: Seq<usize>, command: u8) -> Option<
    (nat, nat),
> {
    if command % 4 < 3 {
        Some(((command % 4) as nat, state.length))
    } else if state.length >= lengths.len() {
        None
    } else {
        Some((lengths[state.length as int] as nat, state.length + 1))
    }
}

/// The offset that a command selects; it moves to the front of the recent ones.
pub open spec fn lz_offset(state: LzState, offsets: Seq<i32>, command: u8) -> Option<LzState> {
    let r = state.recent;
    let index = command / 64;
    if index == 0 {
        Some(LzState { last: r.0, ..state })
    } else if index == 1 {
        Some(LzState { last: r.1, recent: (r.1, r.0, r.2), ..state })
    } else if index == 2 {
        Some(LzState { last: r.2, recent: (r.2, r.0, r.1), ..state })
    } else if state.offset >= offsets.len() {
        None
    } else {
        let offset = offsets[state.offset as int];
        Some(
            LzState { last: offset, recent: (offset, r.0, r.1), offset: state.offset + 1, ..state },
        )
    }
}

/// The length of the match that a command asks for.
pub open spec fn lz_match_count(state: LzState, lengths: Seq<usize>, command: u8) -> Option<
    (nat, nat),
> {
    let code = (command / 4) % 16;
    if code < 15 {
        Some(((code + 2) as nat, state.length))
    } else if state.length >= lengths.len() || lengths[state.length as int] + 14 > usize::MAX {
        None
    } else {
        Some(((lengths[state.length as int] + 14) as nat, state.length + 1))
    }
}

/// Copies a match.
pub open spec fn lz_match(state: LzState, count: nat, end: nat) -> Option<LzState> {
    if state.out.len() + count > end || state.last >= 0 || -state.last > state.out.len() {
        None
    } else {
        Some(LzState { out: copy_back(state.out, (-state.last) as nat, count), ..state })
    }
}

/// One command: literals, then a match.
pub open spec fn lz_step(
    state: LzState,
    literals: Seq<u8>,
    offsets: Seq<i32>,
    lengths: Seq<usize>,
    command: u8,
    mode: u32,
    end: nat,
) -> Option<LzState> {
    match lz_literal_count(state, lengths, command) {
        None => None,
        Some((count, length)) => match lz_literals(
            LzState { length, ..state },
            literals,
            count,
            mode,
            end,
        ) {
            None => None,
            Some(state) => match lz_offset(state, offsets, command) {
                None => None,
                Some(state) => match lz_match_count(state, lengths, command) {
                    None => None,
                    Some((count, length)) => lz_match(LzState { length, ..state }, count, end),
                },
            },
        },
    }
}

/// The first `n` commands.
pub open spec fn lz_steps(
    start: LzState,
    literals: Seq<u8>,
    commands: Seq<u8>,
    offsets: Seq<i32>,
    lengths: Seq<usize>,
    mode: u32,
    end: nat,
    n: nat,
) -> Option<LzState>
    decreases n,
{
    if n == 0 {
        Some(start)
    } else {
        match lz_steps(
            start,
            literals,
            commands,
            offsets,
            lengths,
            mode,
            end,
            (n - 1) as nat,
        ) {
            None => None,
            Some(state) => lz_step(
                state,
                literals,
                offsets,
                lengths,
                commands[n - 1],
                mode,
                end,
            ),
        }
    }
}

/// All commands and the literals that are left. Everything must be used up and
/// the output must reach exactly `end`.
pub open spec fn lz_commands(
    out: Seq<u8>,
    end: nat,
    literals: Seq<u8>,
    commands: Seq<u8>,
    offsets: Seq<i32>,
    lengths: Seq<usize>,
    mode: u32,
) -> Option<Seq<u8>> {
    if mode > 1 || end < out.len() {
        None
    } else {
        match lz_steps(
            lz_start(out),
            literals,
            commands,
            offsets,
            lengths,
            mode,
            end,
            commands.len(),
        ) {
            None => None,
            Some(state) => match lz_literals(
                state,
                literals,
                (literals.len() - state.literal) as nat,
                mode,
                end,
            ) {
                None => None,
                Some(state) => if state.out.len() == end && state.offset == offsets.len()
                    && state.length == lengths.len() {
                    Some(state.out)
                } else {
                    None
                },
            },
        }
    }
}

pub proof fn lemma_copy_back_len(out: Seq<u8>, distance: nat, count: nat)
    ensures
        copy_back(out, distance, count).len() == out.len() + count,
    decreases count,
{
    if count > 0 {
        lemma_copy_back_len(out, distance, (count - 1) as nat);
    }
}

pub proof fn lemma_add_literals_len(out: Seq<u8>, literals: Seq<u8>, distance: nat)
    ensures
        add_literals(out, literals, distance).len() == out.len() + literals.len(),
    decreases literals.len(),
{
    if literals.len() > 0 {
        lemma_add_literals_len(out, literals.drop_last(), distance);
    }
}

pub proof fn lemma_lz_steps_none(
    start: LzState,
    literals: Seq<u8>,
    commands: Seq<u8>,
    offsets: Seq<i32>,
    lengths: Seq<usize>,
    mode: u32,
    end: nat,
    n: nat,
    m: nat,
)
    requires
        n <= m,
        lz_steps(start, literals, commands, offsets, lengths, mode, end, n) is None,
    ensures
        lz_steps(start, literals, commands, offsets, lengths, mode, end, m) is None,
    decreases m - n,
{
    if n < m {
        lemma_lz_steps_none(
            start,
            literals,
            commands,
            offsets,
            lengths,
            mode,
            end,
            n,
            (m - 1) as nat,
        );
    }
}

/// The place `-offset` bytes before `position`.
fn history_index(position: usize, offset: i32) -> (result: Option<usize>)
    ensures
        result == if offset >= 0 || -offset > position {
            None
        } else {
            Some((position + offset) as usize)
        },
{
    if offset >= 0 {
        return None;
    }
    let distance: u64 = (-(offset as i64)) as u64;
    if distance > position as u64 {
        return None;
    }
    Some(position - distance as usize)
}

/// An output was only added to, up to `end`: what it held stays in front, and it
/// is at most as long as before or as `end`.
pub open spec fn grown(before: Seq<u8>, after: Seq<u8>, end: nat) -> bool {
    &&& before.is_prefix_of(after)
    &&& after.len() <= before.len() || after.len() <= end
}

pub proof fn lemma_grown(before: Seq<u8>, middle: Seq<u8>, after: Seq<u8>, end: nat)
    requires
        grown(before, middle, end),
        grown(middle, after, end),
    ensures
        grown(before, after, end),
{
    assert forall|i: int| 0 <= i < before.len() implies before[i] == after[i] by {
        assert(middle.subrange(0, before.len() as int)[i] == middle[i]);
        assert(after.subrange(0, middle.len() as int)[i] == after[i]);
    }
    assert(before =~= after.subrange(0, before.len() as int));
}

/// How far the commands of a chunk have come in its side streams.
struct LzCursors {
    literal: usize,
    offset: usize,
    length: usize,
    recent: (i32, i32, i32),
    last: i32,
}

impl LzCursors {
    /// The state of a chunk whose output is `out`.
    spec fn state(self, out: Seq<u8>) -> LzState {
        LzState {
            out,
            literal: self.literal as nat,
            offset: self.offset as nat,
            length: self.length as nat,
            recent: self.recent,
            last: self.last,
        }
    }
}

/// Takes `count` literals.
fn emit_literals(
    output: &mut Vec<u8>,
    cursors: &mut LzCursors,
    chunk_end: usize,
    literals: &[u8],
    count: usize,
    mode: u32,
) -> (result: bool)
    requires
        old(cursors).literal <= literals@.len(),
        old(output)@.len() <= chunk_end,
    ensures
        match lz_literals(
            old(cursors).state(old(output)@),
            literals@,
            count as nat,
            mode,
            chunk_end as nat,
        ) {
            None => !result,
            Some(next) => result && final(cursors).state(final(output)@) == next
                && final(output)@.len() <= chunk_end && final(cursors).literal <= literals@.len(),
        },
        grown(old(output)@, final(output)@, chunk_end as nat),
{
    assert(output@.is_prefix_of(output@));
    if count > literals.len() - cursors.literal || count > chunk_end - output.len() {
        return false;
    }
    let source: &[u8] = part(literals, cursors.literal, cursors.literal + count);
    let ghost start = output@;
    let ghost distance = (-cursors.last) as nat;
    if mode != 0 {
        append(output, source);
    } else if count > 0 {
        if history_index(output.len(), cursors.last).is_none() {
            return false;
        }
        let mut i: usize = 0;
        assert(source@.subrange(0, 0) =~= Seq::<u8>::empty());
        while i < count
            invariant
                i <= count,
                count == source@.len(),
                start.len() + count <= chunk_end,
                cursors.last < 0,
                distance == -cursors.last,
                distance <= start.len(),
                output@.len() == start.len() + i,
                output@ == add_literals(start, source@.subrange(0, i as int), distance),
                start.is_prefix_of(output@),
                *cursors == *old(cursors),
            decreases count - i,
        {
            let predictor: usize = output.len() - (-(cursors.last as i64)) as usize;
            let sum: u16 = source[i] as u16 + output[predictor] as u16;
            proof {
                assert(source@.subrange(0, i + 1).drop_last() =~= source@.subrange(0, i as int));
            }
            let ghost before = output@;
            output.push((sum % 256) as u8);
            proof {
                assert(output@.subrange(0, start.len() as int) =~= before.subrange(
                    0,
                    start.len() as int,
                ));
            }
            i = i + 1;
        }
        assert(source@.subrange(0, count as int) =~= source@);
    } else {
        assert(source@ =~= Seq::<u8>::empty());
    }
    proof {
        lemma_add_literals_len(start, source@, distance);
    }
    cursors.literal = cursors.literal + count;
    true
}

/// Copies a match of `count` bytes.
fn copy_match(output: &mut Vec<u8>, cursors: &LzCursors, chunk_end: usize, count: usize) -> (result:
    bool)
    requires
        old(output)@.len() <= chunk_end,
    ensures
        match lz_match(cursors.state(old(output)@), count as nat, chunk_end as nat) {
            None => !result,
            Some(next) => result && cursors.state(final(output)@) == next && final(output)@.len()
                <= chunk_end,
        },
        grown(old(output)@, final(output)@, chunk_end as nat),
{
    assert(output@.is_prefix_of(output@));
    if count > chunk_end - output.len() {
        return false;
    }
    let offset: i32 = cursors.last;
    let mut source: usize = match history_index(output.len(), offset) {
        Some(source) => source,
        None => return false,
    };
    let ghost start = output@;
    let mut i: usize = 0;
    while i < count
        invariant
            i <= count,
            offset < 0,
            start.len() + count <= chunk_end,
            output@.len() == start.len() + i,
            source == output@.len() + offset,
            output@ == copy_back(start, (-offset) as nat, i as nat),
            start.is_prefix_of(output@),
        decreases count - i,
    {
        let byte: u8 = output[source];
        let ghost before = output@;
        output.push(byte);
        proof {
            assert(output@.subrange(0, start.len() as int) =~= before.subrange(
                0,
                start.len() as int,
            ));
        }
        source = source + 1;
        i = i + 1;
    }
    true
}

/// Takes the next long length.
fn take_length(cursors: &mut LzCursors, lengths: &[usize]) -> (result: Option<usize>)
    requires
        old(cursors).length <= lengths@.len(),
    ensures
        final(cursors).length <= lengths@.len(),
        if old(cursors).length < lengths@.len() {
            &&& result == Some(lengths@[old(cursors).length as int])
            &&& final(cursors).length == old(cursors).length + 1
            &&& *final(cursors) == (LzCursors { length: final(cursors).length, ..*old(cursors) })
        } else {
            result is None
        },
{
    if cursors.length >= lengths.len() {
        return None;
    }
    cursors.length = cursors.length + 1;
    Some(lengths[cursors.length - 1])
}

/// Selects the offset of a command.
fn select_offset(cursors: &mut LzCursors, offsets: &[i32], command: u8) -> (result: bool)
    requires
        old(cursors).offset <= offsets@.len(),
    ensures
        forall|out: Seq<u8>|
            match #[trigger] lz_offset(old(cursors).state(out), offsets@, command) {
                None => !result,
                Some(next) => result && final(cursors).state(out) == next && final(cursors).offset
                    <= offsets@.len(),
            },
{
    let recent: (i32, i32, i32) = cursors.recent;
    let index: u8 = command / 64;
    if index == 0 {
        cursors.last = recent.0;
    } else if index == 1 {
        cursors.last = recent.1;
        cursors.recent = (recent.1, recent.0, recent.2);
    } else if index == 2 {
        cursors.last = recent.2;
        cursors.recent = (recent.2, recent.0, recent.1);
    } else {
        if cursors.offset >= offsets.len() {
            return false;
        }
        let offset: i32 = offsets[cursors.offset];
        cursors.last = offset;
        cursors.offset = cursors.offset + 1;
        cursors.recent = (offset, recent.0, recent.1);
    }
    true
}

/// Runs one command.
fn execute_command(
    output: &mut Vec<u8>,
    cursors: &mut LzCursors,
    chunk_end: usize,
    literals: &[u8],
    explicit_offsets: &[i32],
    long_lengths: &[usize],
    command: u8,
    mode: u32,
) -> (result: bool)
    requires
        old(cursors).literal <= literals@.len(),
        old(cursors).offset <= explicit_offsets@.len(),
        old(cursors).length <= long_lengths@.len(),
        old(output)@.len() <= chunk_end,
    ensures
        match lz_step(
            old(cursors).state(old(output)@),
            literals@,
            explicit_offsets@,
            long_lengths@,
            command,
            mode,
            chunk_end as nat,
        ) {
            None => !result,
            Some(next) => {
                &&& result
                &&& final(cursors).state(final(output)@) == next
                &&& final(cursors).literal <= literals@.len()
                &&& final(cursors).offset <= explicit_offsets@.len()
                &&& final(cursors).length <= long_lengths@.len()
                &&& final(output)@.len() <= chunk_end
            },
        },
        grown(old(output)@, final(output)@, chunk_end as nat),
{
    assert(output@.is_prefix_of(output@));
    let literal_count: usize = if command % 4 < 3 {
        (command % 4) as usize
    } else {
        match take_length(cursors, long_lengths) {
            Some(count) => count,
            None => return false,
        }
    };
    if !emit_literals(output, cursors, chunk_end, literals, literal_count, mode) {
        return false;
    }
    let ghost before = cursors.state(output@);
    let selected: bool = select_offset(cursors, explicit_offsets, command);
    proof {
        let next = lz_offset(before, explicit_offsets@, command);
        assert(next is Some ==> cursors.state(output@) == next->0);
    }
    if !selected {
        return false;
    }
    let code: u8 = (command / 4) % 16;
    let match_count: usize = if code < 15 {
        code as usize + 2
    } else {
        let count: usize = match take_length(cursors, long_lengths) {
            Some(count) => count,
            None => return false,
        };
        if count > usize::MAX - 14 {
            return false;
        }
        count + 14
    };
    let ghost middle = output@;
    let copied: bool = copy_match(output, cursors, chunk_end, match_count);
    proof {
        lemma_grown(old(output)@, middle, output@, chunk_end as nat);
    }
    copied
}

/// Runs the commands of a chunk. Where that fails, the output keeps what it held
/// and may hold a part of the chunk behind it.
pub fn execute_lz_commands(
    output: &mut Vec<u8>,
    chunk_end: usize,
    literals: &[u8],
    commands: &[u8],
    explicit_offsets: &[i32],
    long_lengths: &[usize],
    mode: u32,
    stream_offset: usize,
) -> (result: Result<(), KrakenError>)
    ensures
        match lz_commands(
            old(output)@,
            chunk_end as nat,
            literals@,
            commands@,
            explicit_offsets@,
            long_lengths@,
            mode,
        ) {
            None => result == Err::<(), KrakenError>(bad(stream_offset as nat)),
            Some(out) => result == Ok::<(), KrakenError>(()) && final(output)@ == out
                && out.len() == chunk_end,
        },
        grown(old(output)@, final(output)@, chunk_end as nat),
        mode > 1 || chunk_end < old(output)@.len() ==> final(output)@ == old(output)@,
{
    assert(output@.is_prefix_of(output@));
    if mode > 1 || chunk_end < output.len() {
        return Err(KrakenError::InvalidQuantum { offset: stream_offset });
    }
    let mut cursors = LzCursors { literal: 0, offset: 0, length: 0, recent: (-8, -8, -8), last: -8 };
    let ghost start = lz_start(output@);
    let mut i: usize = 0;
    while i < commands.len()
        invariant
            i <= commands@.len(),
            mode <= 1,
            start == lz_start(old(output)@),
            old(output)@.len() <= chunk_end,
            output@.len() <= chunk_end,
            grown(old(output)@, output@, chunk_end as nat),
            cursors.literal <= literals@.len(),
            cursors.offset <= explicit_offsets@.len(),
            cursors.length <= long_lengths@.len(),
            lz_steps(
                start,
                literals@,
                commands@,
                explicit_offsets@,
                long_lengths@,
                mode,
                chunk_end as nat,
                i as nat,
            ) == Some(cursors.state(output@)),
        decreases commands@.len() - i,
    {
        let ghost before = output@;
        let executed: bool = execute_command(
            output,
            &mut cursors,
            chunk_end,
            literals,
            explicit_offsets,
            long_lengths,
            commands[i],
            mode,
        );
        proof {
            lemma_grown(old(output)@, before, output@, chunk_end as nat);
        }
        if !executed {
            proof {
                lemma_lz_steps_none(
                    start,
                    literals@,
                    commands@,
                    explicit_offsets@,
                    long_lengths@,
                    mode,
                    chunk_end as nat,
                    (i + 1) as nat,
                    commands@.len(),
                );
            }
            return Err(KrakenError::InvalidQuantum { offset: stream_offset });
        }
        i = i + 1;
    }
    let left: usize = literals.len() - cursors.literal;
    let ghost before = output@;
    let emitted: bool = emit_literals(output, &mut cursors, chunk_end, literals, left, mode);
    proof {
        lemma_grown(old(output)@, before, output@, chunk_end as nat);
    }
    if !emitted {
        return Err(KrakenError::InvalidQuantum { offset: stream_offset });
    }
    if output.len() != chunk_end || cursors.offset != explicit_offsets.len() || cursors.length
        != long_lengths.len() {
        return Err(KrakenError::InvalidQuantum { offset: stream_offset });
    }
    Ok(())
}

// ---------------------------------------------------------------------------
// Chunks
// ---------------------------------------------------------------------------

/// The scale of offsets: a byte of at least 128 gives it, else there is none.
pub open spec fn offset_scale(bytes: Seq<u8>, at: nat) -> (nat, nat) {
    if bytes[at as int] >= 0x80 {
        ((bytes[at as int] - 127) as nat, at + 1)
    } else {
        (0, at)
    }
}

/// The low digits of offsets, which only a scale above one has.
pub open spec fn low_digits(bytes: Seq<u8>, at: nat, base: nat, scale: nat, count: nat) -> Result<
    (Seq<u8>, nat),
    KrakenError,
> {
    if scale > 1 {
        arrays::array(bytes, at, base, Some(count as usize), 0)
    } else {
        Ok((seq![], at))
    }
}

/// The side streams of a chunk: literals, commands, offsets and long lengths.
pub struct LzStreams {
    pub literals: Seq<u8>,
    pub commands: Seq<u8>,
    pub offsets: Seq<i32>,
    pub lengths: Seq<usize>,
}

/// The offsets and long lengths that the bits after all arrays give.
#[verifier::opaque]
pub open spec fn lz_suffix(
    suffix: Seq<u8>,
    packed_offsets: Seq<u8>,
    low: Seq<u8>,
    scale: nat,
    packed_lengths: Seq<u8>,
) -> Option<(Seq<i32>, Seq<usize>)> {
    let front = bits::msb_bits(suffix);
    let back = bits::msb_bits(suffix.reverse());
    if suffix.len() == 0 {
        None
    } else {
        match readers::paired_gamma_minus_one(back, 0, 0) {
            None => None,
            Some((count, back_at)) => if count > 512 {
                None
            } else {
                match explicit_offsets(front, back, packed_offsets, low, scale, 0, back_at, seq![]) {
                    None => None,
                    Some((offsets, front_at, back_at)) => match extended_lengths(
                        front,
                        back,
                        count,
                        front_at,
                        back_at,
                        seq![],
                    ) {
                        None => None,
                        Some((extended, front_at, back_at)) => if !readers::no_unread_bytes(
                            8 * suffix.len(),
                            front_at,
                            back_at,
                        ) {
                            None
                        } else {
                            match long_lengths(packed_lengths, extended, 0, seq![]) {
                                None => None,
                                Some(lengths) => Some((offsets, lengths)),
                            }
                        },
                    },
                }
            },
        }
    }
}

/// Reads the side streams at `at`; `size` is that of the chunk.
pub open spec fn lz_streams(bytes: Seq<u8>, at: nat, base: nat, size: nat) -> Result<
    LzStreams,
    KrakenError,
> {
    if at >= bytes.len() {
        Err(arrays::cut_off(base + at))
    } else if bytes[at as int] >= 0x80 {
        Err(KrakenError::UnsupportedQuantum { offset: (base + at) as usize })
    } else {
        match arrays::array(bytes, at, base, None, 0) {
            Err(error) => Err(error),
            Ok((literals, at)) => match arrays::array(bytes, at, base, None, 0) {
                Err(error) => Err(error),
                Ok((commands, at)) => if commands.len() > size {
                    Err(bad(base + at))
                } else if at >= bytes.len() {
                    Err(arrays::cut_off(base + at))
                } else {
                    lz_streams_after(bytes, at, base, size, literals, commands)
                },
            },
        }
    }
}

/// Reads the side streams that follow literals and commands.
pub open spec fn lz_streams_after(
    bytes: Seq<u8>,
    at: nat,
    base: nat,
    size: nat,
    literals: Seq<u8>,
    commands: Seq<u8>,
) -> Result<LzStreams, KrakenError> {
    let (scale, at) = offset_scale(bytes, at);
    match arrays::array(bytes, at, base, None, 0) {
        Err(error) => Err(error),
        Ok((packed_offsets, at)) => match low_digits(bytes, at, base, scale, packed_offsets.len()) {
            Err(error) => Err(error),
            Ok((low, at)) => match arrays::array(bytes, at, base, None, 0) {
                Err(error) => Err(error),
                Ok((packed_lengths, at)) => if packed_offsets.len() > commands.len()
                    || packed_lengths.len() > size / 4 {
                    Err(bad(base + at))
                } else {
                    match lz_suffix(
                        bytes.subrange(at as int, bytes.len() as int),
                        packed_offsets,
                        low,
                        scale,
                        packed_lengths,
                    ) {
                        None => Err(bad(base + at)),
                        Some((offsets, lengths)) => Ok(
                            LzStreams { literals, commands, offsets, lengths },
                        ),
                    }
                },
            },
        },
    }
}

/// An LZ chunk of `size` bytes: at the start of all output it begins with eight
/// plain bytes.
#[verifier::opaque]
pub open spec fn lz_chunk(payload: Seq<u8>, size: nat, out: Seq<u8>, mode: u32, base: nat) -> Result<
    Seq<u8>,
    KrakenError,
> {
    let end = out.len() + size;
    if end > usize::MAX {
        Err(bad(base))
    } else if out.len() == 0 && payload.len() < 8 {
        Err(arrays::cut_off(base))
    } else {
        let at: nat = if out.len() == 0 {
            8
        } else {
            0
        };
        match lz_streams(payload, at, base, size) {
            Err(error) => Err(error),
            Ok(streams) => match lz_commands(
                out + payload.subrange(0, at as int),
                end,
                streams.literals,
                streams.commands,
                streams.offsets,
                streams.lengths,
                mode,
            ) {
                None => Err(bad(base)),
                Some(out) => Ok(out),
            },
        }
    }
}

fn decode_lz_suffix(
    suffix: &[u8],
    suffix_offset: usize,
    packed_offsets: &[u8],
    low_digits: &[u8],
    offset_scale: usize,
    packed_lengths: &[u8],
) -> (result: Result<(Vec<i32>, Vec<usize>), KrakenError>)
    requires
        8 * suffix@.len() <= usize::MAX,
        offset_scale <= 128,
    ensures
        match lz_suffix(
            suffix@,
            packed_offsets@,
            low_digits@,
            offset_scale as nat,
            packed_lengths@,
        ) {
            None => result == Err::<(Vec<i32>, Vec<usize>), KrakenError>(
                bad(suffix_offset as nat),
            ),
            Some((offsets, lengths)) => result matches Ok(r) && r.0@ == offsets && r.1@ == lengths,
        },
{
    reveal(lz_suffix);
    if suffix.len() == 0 {
        return Err(KrakenError::InvalidQuantum { offset: suffix_offset });
    }
    let mut bits = PairedBits::new(suffix, suffix_offset);
    let extended_count: usize = bits.read_back_gamma_minus_one()?;
    if extended_count > 512 {
        return Err(KrakenError::InvalidQuantum { offset: suffix_offset });
    }
    let offsets: Vec<i32> = decode_explicit_offsets(
        &mut bits,
        packed_offsets,
        low_digits,
        offset_scale,
        suffix_offset,
    )?;
    let extended: Vec<usize> = read_extended_lengths(&mut bits, extended_count)?;
    bits.require_no_unread_bytes()?;
    let lengths: Vec<usize> = expand_long_lengths(packed_lengths, &extended, suffix_offset)?;
    Ok((offsets, lengths))
}

/// How long an output gets at most while a chunk of `size` bytes is added to it.
/// The first chunk opens with eight bytes of history, which stand in the output
/// before the rest of the chunk is read.
pub open spec fn chunk_bound(out: Seq<u8>, size: nat) -> nat {
    if out.len() == 0 && size < 8 {
        8
    } else {
        out.len() + size
    }
}

/// Decodes an LZ chunk of `chunk_size` bytes and appends it to the output.
/// Where that fails, the output keeps what it held and may hold a part of the
/// chunk behind it.
pub fn decode_lz_payload(
    payload: &[u8],
    chunk_size: usize,
    output: &mut Vec<u8>,
    mode: u32,
    stream_offset: usize,
) -> (result: Result<(), KrakenError>)
    requires
        stream_offset + payload@.len() <= usize::MAX,
        8 * payload@.len() <= usize::MAX,
    ensures
        match lz_chunk(payload@, chunk_size as nat, old(output)@, mode, stream_offset as nat) {
            Err(error) => result == Err::<(), KrakenError>(error),
            Ok(out) => result == Ok::<(), KrakenError>(()) && final(output)@ == out && out.len()
                == old(output)@.len() + chunk_size,
        },
        grown(old(output)@, final(output)@, chunk_bound(old(output)@, chunk_size as nat)),
{
    reveal(lz_chunk);
    assert(output@.is_prefix_of(output@));
    if chunk_size > usize::MAX - output.len() {
        return Err(KrakenError::InvalidQuantum { offset: stream_offset });
    }
    let chunk_end: usize = output.len() + chunk_size;
    let mut cursor = Cursor::new(payload, stream_offset);
    if output.len() == 0 {
        let history: &[u8] = cursor.take(8)?;
        append(output, history);
    }
    proof {
        assert(old(output)@ + payload@.subrange(0, cursor.at() as int) =~= output@);
        assert(old(output)@.is_prefix_of(output@));
    }
    let ghost opened = output@;
    if cursor.peek_byte()? >= 0x80 {
        return Err(KrakenError::UnsupportedQuantum { offset: cursor.absolute_offset() });
    }
    let literals: Vec<u8> = decode_array(&mut cursor, None, 0)?;
    let commands: Vec<u8> = decode_array(&mut cursor, None, 0)?;
    if commands.len() > chunk_size {
        return Err(KrakenError::InvalidQuantum { offset: cursor.absolute_offset() });
    }
    let first: u8 = cursor.peek_byte()?;
    let scale: usize = if first >= 0x80 {
        cursor.read_byte()?;
        first as usize - 127
    } else {
        0
    };
    let packed_offsets: Vec<u8> = decode_array(&mut cursor, None, 0)?;
    let low: Vec<u8> = if scale > 1 {
        decode_array(&mut cursor, Some(packed_offsets.len()), 0)?
    } else {
        Vec::new()
    };
    let packed_lengths: Vec<u8> = decode_array(&mut cursor, None, 0)?;
    if packed_offsets.len() > commands.len() || packed_lengths.len() > chunk_size / 4 {
        return Err(KrakenError::InvalidQuantum { offset: cursor.absolute_offset() });
    }
    proof {
        cursor.lemma_bound();
    }
    let suffix_offset: usize = cursor.absolute_offset();
    let (offsets, lengths) = decode_lz_suffix(
        cursor.remaining(),
        suffix_offset,
        &packed_offsets,
        &low,
        scale,
        &packed_lengths,
    )?;
    let result: Result<(), KrakenError> = execute_lz_commands(
        output,
        chunk_end,
        &literals,
        &commands,
        &offsets,
        &lengths,
        mode,
        stream_offset,
    );
    proof {
        lemma_grown(
            old(output)@,
            opened,
            output@,
            chunk_bound(old(output)@, chunk_size as nat),
        );
    }
    result
}

} // verus!
