//! What the commands of a chunk are for: they spell any text as literals and
//! matches.

use super::lz;
use super::lz::LzState;
use vstd::prelude::*;

verus! {

// ---------------------------------------------------------------------------
// Plans
// ---------------------------------------------------------------------------

/// A piece of a text: some literals, and a match behind them that repeats what
/// stands `distance` bytes back.
pub ghost struct Piece {
    pub literals: nat,
    /// Whether the number of literals stands among the long lengths.
    pub counted: bool,
    /// Which of the three distances used last the match takes; three is a distance of
    /// its own.
    pub slot: nat,
    pub distance: nat,
    pub length: nat,
    /// Whether the length of the match stands among the long lengths.
    pub measured: bool,
}

/// What is written of a text, up to a place in it.
pub ghost struct Spelled {
    pub at: nat,
    /// The distance of the last match, and eight before the first.
    pub last: nat,
    /// The three distances used last, the newest first.
    pub recent: Seq<nat>,
    pub literals: Seq<u8>,
    pub commands: Seq<u8>,
    pub offsets: Seq<i32>,
    pub lengths: Seq<usize>,
}

/// The literals of a part of a text. In mode 1 they are its bytes. In mode 0 each is
/// what its byte has more than the byte that stands `last` bytes back.
pub open spec fn residues(text: Seq<u8>, at: nat, count: nat, last: nat, mode: u32) -> Seq<u8> {
    Seq::new(
        count,
        |i: int|
            if mode == 0 {
                ((text[at + i] - text[at + i - last]) % 256) as u8
            } else {
                text[at + i]
            },
    )
}

/// The byte of a command: two bits for the literals, four for the length of the match
/// and two for its distance.
pub open spec fn command_byte(piece: Piece) -> u8 {
    let literals = if piece.counted {
        3
    } else {
        piece.literals as int
    };
    let length = if piece.measured {
        15
    } else {
        piece.length - 2
    };
    (literals + 4 * length + 64 * piece.slot) as u8
}

/// The distances used last, with one moved to the front or put there.
pub open spec fn renewed(recent: Seq<nat>, slot: nat, distance: nat) -> Seq<nat> {
    if slot < 3 {
        seq![recent[slot as int]] + recent.remove(slot as int)
    } else {
        seq![distance] + recent.drop_last()
    }
}

/// Whether a piece can be written at a place: the text has its bytes, and its match
/// repeats earlier bytes.
pub open spec fn holds(text: Seq<u8>, s: Spelled, piece: Piece, mode: u32) -> bool {
    let from = s.at + piece.literals;
    &&& from + piece.length <= text.len()
    &&& piece.counted || piece.literals < 3
    &&& if piece.measured {
        piece.length >= 14
    } else {
        2 <= piece.length <= 16
    }
    &&& piece.slot <= 3
    &&& piece.slot < 3 ==> s.recent[piece.slot as int] == piece.distance
    &&& 1 <= piece.distance <= from
    &&& piece.distance <= 0x7fff_ffff
    &&& mode == 0 && piece.literals > 0 ==> s.last <= s.at
    &&& forall|k: int|
        from <= k < from + piece.length ==> #[trigger] text[k] == text[k - piece.distance]
}

/// A piece more.
pub open spec fn with_piece(text: Seq<u8>, s: Spelled, piece: Piece, mode: u32) -> Spelled {
    let counts = if piece.counted {
        seq![piece.literals as usize]
    } else {
        Seq::empty()
    };
    let measures = if piece.measured {
        seq![(piece.length - 14) as usize]
    } else {
        Seq::empty()
    };
    let own = if piece.slot == 3 {
        seq![(-piece.distance) as i32]
    } else {
        Seq::empty()
    };
    Spelled {
        at: s.at + piece.literals + piece.length,
        last: piece.distance,
        recent: renewed(s.recent, piece.slot, piece.distance),
        literals: s.literals + residues(text, s.at, piece.literals, s.last, mode),
        commands: s.commands.push(command_byte(piece)),
        offsets: s.offsets + own,
        lengths: s.lengths + counts + measures,
    }
}

/// A text from a place on, as some pieces.
pub open spec fn spelled(text: Seq<u8>, from: nat, plan: Seq<Piece>, mode: u32) -> Spelled
    decreases plan.len(),
{
    if plan.len() == 0 {
        Spelled {
            at: from,
            last: 8,
            recent: seq![8nat, 8, 8],
            literals: Seq::empty(),
            commands: Seq::empty(),
            offsets: Seq::empty(),
            lengths: Seq::empty(),
        }
    } else {
        with_piece(text, spelled(text, from, plan.drop_last(), mode), plan.last(), mode)
    }
}

/// Whether some pieces can be written one behind the other.
pub open spec fn follows(text: Seq<u8>, from: nat, plan: Seq<Piece>, mode: u32) -> bool
    decreases plan.len(),
{
    plan.len() > 0 ==> follows(text, from, plan.drop_last(), mode) && holds(
        text,
        spelled(text, from, plan.drop_last(), mode),
        plan.last(),
        mode,
    )
}

// ---------------------------------------------------------------------------
// Reading
// ---------------------------------------------------------------------------

/// Where the commands have come that write a text so far.
spec fn reached(text: Seq<u8>, s: Spelled) -> LzState {
    LzState {
        out: text.subrange(0, s.at as int),
        literal: s.literals.len(),
        offset: s.offsets.len(),
        length: s.lengths.len(),
        recent: ((-s.recent[0]) as i32, (-s.recent[1]) as i32, (-s.recent[2]) as i32),
        last: (-s.last) as i32,
    }
}

spec fn well_spelled(text: Seq<u8>, s: Spelled) -> bool {
    &&& s.at <= text.len() <= usize::MAX
    &&& s.recent.len() == 3
    &&& forall|i: int| 0 <= i < 3 ==> 1 <= #[trigger] s.recent[i] <= 0x7fff_ffff
    &&& 1 <= s.last <= 0x7fff_ffff
}

proof fn lemma_added(text: Seq<u8>, at: nat, count: nat, last: nat)
    requires
        at + count <= text.len(),
        count > 0 ==> 1 <= last <= at,
    ensures
        lz::add_literals(
            text.subrange(0, at as int),
            residues(text, at, count, last, 0),
            last,
        ) == text.subrange(0, (at + count) as int),
    decreases count,
{
    let source = residues(text, at, count, last, 0);
    if count > 0 {
        let less = (count - 1) as nat;
        lemma_added(text, at, less, last);
        assert(source.drop_last() =~= residues(text, at, less, last, 0));
        let before = text.subrange(0, (at + less) as int);
        let a = text[(at + less) as int] as int;
        let b = text[at + less - last] as int;
        assert(before[before.len() - last] == b);
        assert(source.last() == (a - b) % 256);
        assert(((a - b) % 256 + b) % 256 == a) by (nonlinear_arith)
            requires
                0 <= a < 256,
                0 <= b < 256,
        ;
        assert(text.subrange(0, (at + count) as int) =~= before.push(text[(at + less) as int]));
    }
}

proof fn lemma_copied(text: Seq<u8>, from: nat, distance: nat, count: nat)
    requires
        from + count <= text.len(),
        1 <= distance <= from,
        forall|k: int| from <= k < from + count ==> #[trigger] text[k] == text[k - distance],
    ensures
        lz::copy_back(text.subrange(0, from as int), distance, count) == text.subrange(
            0,
            (from + count) as int,
        ),
    decreases count,
{
    if count > 0 {
        let less = (count - 1) as nat;
        lemma_copied(text, from, distance, less);
        let before = text.subrange(0, (from + less) as int);
        assert(text[(from + less) as int] == text[from + less - distance]);
        assert(text.subrange(0, (from + count) as int) =~= before.push(text[(from + less) as int]));
    }
}

proof fn lemma_spelled(text: Seq<u8>, from: nat, plan: Seq<Piece>, mode: u32)
    requires
        from <= text.len() <= usize::MAX,
        follows(text, from, plan, mode),
    ensures
        well_spelled(text, spelled(text, from, plan, mode)),
        spelled(text, from, plan, mode).commands.len() == plan.len(),
    decreases plan.len(),
{
    if plan.len() > 0 {
        lemma_spelled(text, from, plan.drop_last(), mode);
        let s = spelled(text, from, plan.drop_last(), mode);
        let next = spelled(text, from, plan, mode);
        let slot = plan.last().slot;
        assert(next.recent.len() == 3);
        assert forall|i: int| 0 <= i < 3 implies 1 <= #[trigger] next.recent[i] <= 0x7fff_ffff by {
            assert(1 <= s.recent[0] && 1 <= s.recent[1] && 1 <= s.recent[2]);
        }
    }
}

proof fn lemma_command(text: Seq<u8>, s: Spelled, piece: Piece, mode: u32)
    requires
        holds(text, s, piece, mode),
    ensures
        ({
            let command = command_byte(piece);
            &&& command % 4 == if piece.counted {
                3
            } else {
                piece.literals as int
            }
            &&& (command / 4) % 16 == if piece.measured {
                15
            } else {
                piece.length - 2
            }
            &&& command / 64 == piece.slot
        }),
{
}

/// The literals of a piece are taken.
proof fn lemma_literals(
    text: Seq<u8>,
    s: Spelled,
    piece: Piece,
    mode: u32,
    literals: Seq<u8>,
    length: nat,
)
    requires
        mode <= 1,
        well_spelled(text, s),
        holds(text, s, piece, mode),
        with_piece(text, s, piece, mode).literals.is_prefix_of(literals),
    ensures
        lz::lz_literals(
            LzState { length, ..reached(text, s) },
            literals,
            piece.literals,
            mode,
            text.len(),
        ) == Some(
            LzState {
                out: text.subrange(0, (s.at + piece.literals) as int),
                literal: s.literals.len() + piece.literals,
                length,
                ..reached(text, s)
            },
        ),
{
    let next = with_piece(text, s, piece, mode);
    let own = residues(text, s.at, piece.literals, s.last, mode);
    assert(literals.subrange(
        s.literals.len() as int,
        (s.literals.len() + piece.literals) as int,
    ) =~= own) by {
        assert forall|i: int| 0 <= i < piece.literals implies literals[s.literals.len() + i]
            == own[i] by {
            assert(next.literals[s.literals.len() + i] == own[i]);
        }
    }
    if mode == 0 {
        lemma_added(text, s.at, piece.literals, s.last);
        if piece.literals == 0 {
            assert(own =~= Seq::empty());
        }
    } else {
        assert(reached(text, s).out + own =~= text.subrange(0, (s.at + piece.literals) as int));
    }
}

/// The distance of a piece is found.
proof fn lemma_distance(
    text: Seq<u8>,
    s: Spelled,
    piece: Piece,
    mode: u32,
    offsets: Seq<i32>,
    state: LzState,
)
    requires
        well_spelled(text, s),
        holds(text, s, piece, mode),
        with_piece(text, s, piece, mode).offsets.is_prefix_of(offsets),
        state.offset == s.offsets.len(),
        state.recent == reached(text, s).recent,
    ensures
        ({
            let next = with_piece(text, s, piece, mode);
            lz::lz_offset(state, offsets, command_byte(piece)) == Some(
                LzState {
                    offset: next.offsets.len(),
                    recent: reached(text, next).recent,
                    last: (-piece.distance) as i32,
                    ..state
                },
            )
        }),
{
    let next = with_piece(text, s, piece, mode);
    lemma_command(text, s, piece, mode);
    if piece.slot == 3 {
        assert(next.offsets[s.offsets.len() as int] == (-piece.distance) as i32);
        assert(offsets[s.offsets.len() as int] == next.offsets[s.offsets.len() as int]);
    }
}

/// One command writes one piece.
proof fn lemma_piece(
    text: Seq<u8>,
    s: Spelled,
    piece: Piece,
    mode: u32,
    literals: Seq<u8>,
    offsets: Seq<i32>,
    lengths: Seq<usize>,
)
    requires
        mode <= 1,
        well_spelled(text, s),
        holds(text, s, piece, mode),
        with_piece(text, s, piece, mode).literals.is_prefix_of(literals),
        with_piece(text, s, piece, mode).offsets.is_prefix_of(offsets),
        with_piece(text, s, piece, mode).lengths.is_prefix_of(lengths),
    ensures
        lz::lz_step(
            reached(text, s),
            literals,
            offsets,
            lengths,
            command_byte(piece),
            mode,
            text.len(),
        ) == Some(reached(text, with_piece(text, s, piece, mode))),
{
    let next = with_piece(text, s, piece, mode);
    let state = reached(text, s);
    let command = command_byte(piece);
    lemma_command(text, s, piece, mode);
    let used = if piece.counted {
        s.lengths.len() + 1
    } else {
        s.lengths.len()
    };
    if piece.counted {
        assert(next.lengths[s.lengths.len() as int] == piece.literals);
        assert(lengths[s.lengths.len() as int] == next.lengths[s.lengths.len() as int]);
    }
    if piece.measured {
        assert(next.lengths[used as int] == piece.length - 14);
        assert(lengths[used as int] == next.lengths[used as int]);
    }
    assert(lz::lz_literal_count(state, lengths, command) == Some((piece.literals, used)));
    let from = s.at + piece.literals;
    lemma_literals(text, s, piece, mode, literals, used);
    let second = LzState {
        out: text.subrange(0, from as int),
        literal: s.literals.len() + piece.literals,
        length: used,
        ..state
    };
    lemma_distance(text, s, piece, mode, offsets, second);
    let third = LzState {
        offset: next.offsets.len(),
        recent: reached(text, next).recent,
        last: (-piece.distance) as i32,
        ..second
    };
    assert(lz::lz_match_count(third, lengths, command) == Some((piece.length, next.lengths.len())));
    lemma_copied(text, from, piece.distance, piece.length);
    assert(next.literals.len() == second.literal);
    let last = LzState { length: next.lengths.len(), ..third };
    assert(lz::lz_match(last, piece.length, text.len()) == Some(reached(text, next)));
}

/// Some commands write some pieces.
proof fn lemma_plan(
    text: Seq<u8>,
    from: nat,
    plan: Seq<Piece>,
    mode: u32,
    literals: Seq<u8>,
    commands: Seq<u8>,
    offsets: Seq<i32>,
    lengths: Seq<usize>,
)
    requires
        mode <= 1,
        from <= text.len() <= usize::MAX,
        follows(text, from, plan, mode),
        spelled(text, from, plan, mode).literals.is_prefix_of(literals),
        spelled(text, from, plan, mode).commands.is_prefix_of(commands),
        spelled(text, from, plan, mode).offsets.is_prefix_of(offsets),
        spelled(text, from, plan, mode).lengths.is_prefix_of(lengths),
    ensures
        lz::lz_steps(
            lz::lz_start(text.subrange(0, from as int)),
            literals,
            commands,
            offsets,
            lengths,
            mode,
            text.len(),
            plan.len(),
        ) == Some(reached(text, spelled(text, from, plan, mode))),
    decreases plan.len(),
{
    if plan.len() > 0 {
        let less = plan.drop_last();
        let s = spelled(text, from, less, mode);
        let next = spelled(text, from, plan, mode);
        lemma_spelled(text, from, less, mode);
        assert(s.literals =~= literals.subrange(0, s.literals.len() as int)) by {
            assert forall|i: int| 0 <= i < s.literals.len() implies s.literals[i]
                == literals[i] by {
                assert(next.literals[i] == s.literals[i]);
                assert(literals.subrange(0, next.literals.len() as int)[i] == literals[i]);
            }
        }
        assert(s.commands =~= commands.subrange(0, s.commands.len() as int)) by {
            assert forall|i: int| 0 <= i < s.commands.len() implies s.commands[i]
                == commands[i] by {
                assert(next.commands[i] == s.commands[i]);
                assert(commands.subrange(0, next.commands.len() as int)[i] == commands[i]);
            }
        }
        assert(s.offsets =~= offsets.subrange(0, s.offsets.len() as int)) by {
            assert forall|i: int| 0 <= i < s.offsets.len() implies s.offsets[i] == offsets[i] by {
                assert(next.offsets[i] == s.offsets[i]);
                assert(offsets.subrange(0, next.offsets.len() as int)[i] == offsets[i]);
            }
        }
        assert(s.lengths =~= lengths.subrange(0, s.lengths.len() as int)) by {
            assert forall|i: int| 0 <= i < s.lengths.len() implies s.lengths[i] == lengths[i] by {
                assert(next.lengths[i] == s.lengths[i]);
                assert(lengths.subrange(0, next.lengths.len() as int)[i] == lengths[i]);
            }
        }
        lemma_plan(text, from, less, mode, literals, commands, offsets, lengths);
        lemma_piece(text, s, plan.last(), mode, literals, offsets, lengths);
        assert(commands[plan.len() - 1] == command_byte(plan.last())) by {
            assert(next.commands[plan.len() - 1] == command_byte(plan.last()));
            assert(commands.subrange(0, next.commands.len() as int)[plan.len() - 1]
                == commands[plan.len() - 1]);
        }
    }
}

/// A text is read back from the commands of any plan for it: of any cut into literals
/// and matches that repeat earlier bytes. In mode 1 the literals are the bytes of the
/// text. In mode 0 they are what its bytes have more than those that stand as far back
/// as the match copied last came from, and eight bytes back before the first match.
/// A match takes a distance of its own or one of the three used last.
pub proof fn law_plan_read(text: Seq<u8>, from: nat, plan: Seq<Piece>, mode: u32)
    requires
        mode <= 1,
        from <= text.len() <= usize::MAX,
        follows(text, from, plan, mode),
        ({
            let s = spelled(text, from, plan, mode);
            mode == 0 && s.at < text.len() ==> s.last <= s.at
        }),
    ensures
        ({
            let s = spelled(text, from, plan, mode);
            let rest = residues(text, s.at, (text.len() - s.at) as nat, s.last, mode);
            lz::lz_commands(
                text.subrange(0, from as int),
                text.len(),
                s.literals + rest,
                s.commands,
                s.offsets,
                s.lengths,
                mode,
            ) == Some(text)
        }),
{
    let s = spelled(text, from, plan, mode);
    let left = (text.len() - s.at) as nat;
    let rest = residues(text, s.at, left, s.last, mode);
    let literals = s.literals + rest;
    lemma_spelled(text, from, plan, mode);
    assert(s.literals =~= literals.subrange(0, s.literals.len() as int));
    assert(s.commands =~= s.commands.subrange(0, s.commands.len() as int));
    assert(s.offsets =~= s.offsets.subrange(0, s.offsets.len() as int));
    assert(s.lengths =~= s.lengths.subrange(0, s.lengths.len() as int));
    lemma_plan(text, from, plan, mode, literals, s.commands, s.offsets, s.lengths);
    let state = reached(text, s);
    assert(literals.subrange(s.literals.len() as int, literals.len() as int) =~= rest);
    assert(text.subrange(0, text.len() as int) =~= text);
    if mode == 0 {
        lemma_added(text, s.at, left, s.last);
        if left == 0 {
            assert(rest =~= Seq::empty());
        }
    } else {
        assert(state.out + rest =~= text);
    }
}

} // verus!
