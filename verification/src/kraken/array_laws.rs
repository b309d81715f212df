//! What run-length coded arrays and picked arrays decode to.

use crate::kraken::arrays;
use crate::kraken::cursor;
use crate::sequence;
use vstd::prelude::*;

verus! {

// ---------------------------------------------------------------------------
// Run lengths
// ---------------------------------------------------------------------------

/// How the numbers of a run are written: in one byte, in two, or in two for many
/// repetitions or many literals alone.
pub ghost enum Form {
    Short,
    Word,
    Repeats,
    Literals,
}

/// What a command does: it chooses the byte that is repeated, or writes literals and then
/// that byte some times.
pub ghost enum Item {
    Choose(u8),
    Write(Seq<u8>, nat, Form),
}

/// Whether a form has room for the numbers of a command.
pub open spec fn fits(item: Item) -> bool {
    match item {
        Item::Choose(_) => true,
        Item::Write(literals, times, Form::Short) => literals.len() <= 15 && times <= 15 && (times
            >= 3 || times == 0 && literals.len() == 15),
        Item::Write(literals, times, Form::Word) => literals.len() < 64 && literals.len() + 64
            * times < 0x2000,
        Item::Write(literals, times, Form::Repeats) => literals.len() == 0 && times % 128 == 0
            && 1 <= times / 128 <= 0x700,
        Item::Write(literals, times, Form::Literals) => times == 0 && literals.len() % 64 == 0
            && 1 <= literals.len() / 64 <= 0x700,
    }
}

/// The bytes of a word, the low one first.
pub open spec fn word(n: nat) -> Seq<u8> {
    seq![(n % 256) as u8, (n / 256) as u8]
}

/// The bytes of a command, which are read from the end of an array.
pub open spec fn command(item: Item) -> Seq<u8> {
    match item {
        Item::Choose(_) => seq![1u8],
        Item::Write(literals, times, Form::Short) => seq![
            (16 * times + 15 - literals.len()) as u8,
        ],
        Item::Write(literals, times, Form::Word) => word(0x1000 + 64 * times + literals.len()),
        Item::Write(literals, times, Form::Repeats) => word(0x8ff + times / 128),
        Item::Write(literals, times, Form::Literals) => word(0x1ff + literals.len() / 64),
    }
}

/// The bytes that a command takes from the start of an array.
pub open spec fn taken(item: Item) -> Seq<u8> {
    match item {
        Item::Choose(byte) => seq![byte],
        Item::Write(literals, _, _) => literals,
    }
}

/// The bytes that some commands take, in their order.
pub open spec fn all_taken(items: Seq<Item>) -> Seq<u8>
    decreases items.len(),
{
    if items.len() == 0 {
        Seq::empty()
    } else {
        taken(items[0]) + all_taken(items.drop_first())
    }
}

/// Some commands, the first of them last.
pub open spec fn all_commands(items: Seq<Item>) -> Seq<u8>
    decreases items.len(),
{
    if items.len() == 0 {
        Seq::empty()
    } else {
        all_commands(items.drop_first()) + command(items[0])
    }
}

/// What some commands write while a byte is chosen.
pub open spec fn written(items: Seq<Item>, byte: u8) -> Seq<u8>
    decreases items.len(),
{
    if items.len() == 0 {
        Seq::empty()
    } else {
        match items[0] {
            Item::Choose(next) => written(items.drop_first(), next),
            Item::Write(literals, times, _) => literals + Seq::new(times, |i: int| byte) + written(
                items.drop_first(),
                byte,
            ),
        }
    }
}

proof fn lemma_command(commands: Seq<u8>, front: nat, back: nat, item: Item)
    requires
        fits(item),
        item is Write,
        front + command(item).len() <= back <= commands.len(),
        commands.subrange(back - command(item).len(), back as int) == command(item),
    ensures
        ({
            let (literals, times) = (item->Write_0, item->Write_1);
            &&& commands[back - 1] != 1
            &&& arrays::rle_counts(commands, front, back) == Some(
                (literals.len(), times, (back - command(item).len()) as nat),
            )
        }),
{
    let n = command(item).len() as int;
    let part = commands.subrange(back - n, back as int);
    assert(part[n - 1] == commands[back - 1]);
    let literals = item->Write_0;
    let times = item->Write_1;
    match item->Write_2 {
        Form::Short => {
            let c = commands[back - 1];
            assert(c == (16 * times + 15 - literals.len()) as u8);
            assert(c / 16 == times && c % 16 == 15 - literals.len());
        },
        _ => {
            assert(part[0] == commands[back - 2]);
            let value = match item->Write_2 {
                Form::Word => 0x1000 + 64 * times + literals.len(),
                Form::Repeats => 0x8ff + times / 128,
                _ => 0x1ff + literals.len() / 64,
            };
            assert(value < 0x1_0000);
            assert(cursor::le16(commands, back - 2) == value);
            let high = commands[back - 1] as int;
            assert(high == value / 256);
            match item->Write_2 {
                Form::Word => {
                    assert(0x1000 <= value < 0x3000);
                    assert(0x10 <= high < 0x30);
                    assert((value - 4096) % 64 == literals.len());
                    assert((value - 4096) / 64 == times);
                },
                Form::Repeats => {
                    assert(0x900 <= value < 0x1000);
                    assert(9 <= high < 0x10);
                },
                _ => {
                    assert(0x200 <= value < 0x900);
                    assert(2 <= high < 9);
                },
            }
        },
    }
}

proof fn lemma_run(
    commands: Seq<u8>,
    front: nat,
    back: nat,
    items: Seq<Item>,
    byte: u8,
    out: Seq<u8>,
    size: nat,
)
    requires
        front <= back <= commands.len(),
        forall|i: int| 0 <= i < items.len() ==> fits(#[trigger] items[i]),
        commands.subrange(front as int, back as int) == all_taken(items) + all_commands(items),
        size == out.len() + written(items, byte).len(),
    ensures
        arrays::rle_run(commands, front, back, byte, out, size) == Some(
            out + written(items, byte),
        ),
    decreases items.len(),
{
    let part = commands.subrange(front as int, back as int);
    assert(part.len() == back - front);
    if items.len() == 0 {
        assert(out + written(items, byte) =~= out);
    } else {
        let item = items[0];
        let rest = items.drop_first();
        assert(fits(items[0]));
        assert forall|i: int| 0 <= i < rest.len() implies fits(#[trigger] rest[i]) by {
            assert(rest[i] == items[i + 1]);
        }
        let t = taken(item).len();
        let n = command(item).len();
        let inner = all_taken(rest) + all_commands(rest);
        assert(part =~= taken(item) + inner + command(item));
        let next_front = front + t;
        let next_back = (back - n) as nat;
        assert(commands.subrange(front as int, next_front as int) =~= taken(item)) by {
            assert forall|i: int| 0 <= i < t implies commands[front + i] == taken(item)[i] by {
                assert(part[i] == commands[front + i]);
            }
        }
        assert(commands.subrange(next_front as int, next_back as int) =~= inner) by {
            assert forall|i: int| 0 <= i < inner.len() implies commands[next_front + i]
                == inner[i] by {
                assert(part[t + i] == commands[next_front + i]);
            }
        }
        assert(commands.subrange(next_back as int, back as int) =~= command(item)) by {
            assert forall|i: int| 0 <= i < n implies commands[next_back + i] == command(
                item,
            )[i] by {
                assert(part[t + inner.len() + i] == commands[next_back + i]);
            }
        }
        match item {
            Item::Choose(next) => {
                assert(commands.subrange(next_back as int, back as int)[0] == commands[back - 1]);
                assert(commands.subrange(front as int, next_front as int)[0]
                    == commands[front as int]);
                lemma_run(commands, next_front, next_back, rest, next, out, size);
            },
            Item::Write(literals, times, _) => {
                lemma_command(commands, front, back, item);
                let repeats = Seq::new(times, |i: int| byte);
                assert(sequence::repeated(byte, times) =~= repeats);
                let more = out + literals + repeats;
                assert(written(items, byte) == literals + repeats + written(rest, byte));
                lemma_run(commands, next_front, next_back, rest, byte, more, size);
                assert(more + written(rest, byte) =~= out + written(items, byte));
            },
        }
    }
}

/// Run-length coded bytes are what their commands write: the commands stand at the end,
/// the first of them last, and take their bytes from the start.
pub proof fn law_runs_read(items: Seq<Item>)
    requires
        forall|i: int| 0 <= i < items.len() ==> fits(#[trigger] items[i]),
    ensures
        ({
            let commands = all_taken(items) + all_commands(items);
            arrays::rle_run(
                commands,
                0,
                commands.len(),
                0,
                Seq::empty(),
                written(items, 0).len(),
            ) == Some(written(items, 0))
        }),
{
    let commands = all_taken(items) + all_commands(items);
    assert(commands.subrange(0, commands.len() as int) =~= commands);
    lemma_run(
        commands,
        0,
        commands.len(),
        items,
        0,
        Seq::empty(),
        written(items, 0).len(),
    );
    assert(Seq::<u8>::empty() + written(items, 0) =~= written(items, 0));
}

// ---------------------------------------------------------------------------
// Picking
// ---------------------------------------------------------------------------

/// A piece and the source that it is taken from.
pub ghost struct Piece {
    pub source: nat,
    pub bytes: Seq<u8>,
}

/// The pieces of a source behind each other.
pub open spec fn gathered(pieces: Seq<Piece>, source: nat) -> Seq<u8>
    decreases pieces.len(),
{
    if pieces.len() == 0 {
        Seq::empty()
    } else if pieces.last().source == source {
        gathered(pieces.drop_last(), source) + pieces.last().bytes
    } else {
        gathered(pieces.drop_last(), source)
    }
}

/// All pieces behind each other.
pub open spec fn together(pieces: Seq<Piece>) -> Seq<u8>
    decreases pieces.len(),
{
    if pieces.len() == 0 {
        Seq::empty()
    } else {
        together(pieces.drop_last()) + pieces.last().bytes
    }
}

proof fn lemma_prefix(pieces: Seq<Piece>, source: nat, k: nat)
    requires
        k <= pieces.len(),
    ensures
        gathered(pieces.subrange(0, k as int), source).len() <= gathered(pieces, source).len(),
        gathered(pieces, source).subrange(
            0,
            gathered(pieces.subrange(0, k as int), source).len() as int,
        ) == gathered(pieces.subrange(0, k as int), source),
    decreases pieces.len(),
{
    let front = pieces.subrange(0, k as int);
    if k == pieces.len() {
        assert(front =~= pieces);
        let all = gathered(pieces, source);
        assert(all.subrange(0, all.len() as int) =~= all);
    } else {
        let less = pieces.drop_last();
        lemma_prefix(less, source, k);
        assert(less.subrange(0, k as int) =~= front);
        let n = gathered(front, source).len() as int;
        assert(gathered(pieces, source).subrange(0, n) =~= gathered(less, source).subrange(0, n));
    }
}

proof fn lemma_together(pieces: Seq<Piece>, k: nat)
    requires
        k <= pieces.len(),
    ensures
        together(pieces.subrange(0, k as int)).len() <= together(pieces).len(),
    decreases pieces.len(),
{
    if k == pieces.len() {
        assert(pieces.subrange(0, k as int) =~= pieces);
    } else {
        let less = pieces.drop_last();
        lemma_together(less, k);
        assert(less.subrange(0, k as int) =~= pieces.subrange(0, k as int));
    }
}

proof fn lemma_pick(
    pieces: Seq<Piece>,
    sources: Seq<Seq<u8>>,
    indexes: Seq<u8>,
    lengths: Seq<usize>,
    combined: bool,
    k: nat,
    positions: Seq<usize>,
)
    requires
        k <= pieces.len(),
        sources.len() <= 255,
        forall|s: nat| s < sources.len() ==> #[trigger] sources[s as int] == gathered(pieces, s),
        forall|s: int| 0 <= s < sources.len() ==> (#[trigger] sources[s]).len() <= usize::MAX,
        forall|i: int| 0 <= i < pieces.len() ==> (#[trigger] pieces[i]).source < sources.len(),
        indexes.len() == pieces.len() + 1,
        indexes.last() == 0,
        forall|i: int|
            0 <= i < pieces.len() ==> #[trigger] indexes[i] == (pieces[i].source + 1) as u8,
        lengths.len() == pieces.len() + (if combined {
            1int
        } else {
            0
        }),
        forall|i: int|
            0 <= i < pieces.len() ==> #[trigger] lengths[i] == pieces[i].bytes.len(),
        positions.len() == sources.len(),
        forall|s: nat|
            s < sources.len() ==> #[trigger] positions[s as int] == gathered(
                pieces.subrange(0, k as int),
                s,
            ).len(),
    ensures
        arrays::pick(
            sources,
            indexes,
            lengths,
            combined,
            1,
            k,
            k,
            positions,
            together(pieces.subrange(0, k as int)),
            together(pieces).len(),
        ) == Some(together(pieces)),
    decreases pieces.len() - k,
{
    let front = pieces.subrange(0, k as int);
    let size = together(pieces).len();
    if k == pieces.len() {
        assert(front =~= pieces);
        assert forall|s: int| 0 <= s < sources.len() implies positions[s]
            == #[trigger] sources[s].len() by {
            let n = s as nat;
            assert(positions[n as int] == gathered(front, n).len());
            assert(sources[n as int] == gathered(pieces, n));
        }
        assert(indexes[k as int] == 0);
        reveal_with_fuel(arrays::pick, 2);
    } else {
        let piece = pieces[k as int];
        let s = piece.source;
        let more = pieces.subrange(0, k as int + 1);
        assert(more.drop_last() =~= front);
        assert(more.last() == piece);
        assert(indexes[k as int] == (s + 1) as u8);
        assert(lengths[k as int] == piece.bytes.len());
        assert(positions[s as int] == gathered(front, s).len());
        assert(sources[s as int] == gathered(pieces, s));
        lemma_prefix(pieces, s, k + 1);
        lemma_prefix(pieces, s, k);
        let start = positions[s as int] as int;
        let end = start + piece.bytes.len();
        let whole = gathered(pieces, s);
        assert(whole.subrange(0, end) == gathered(front, s) + piece.bytes);
        assert(whole.subrange(start, end) =~= piece.bytes) by {
            assert forall|i: int| 0 <= i < piece.bytes.len() implies whole[start + i]
                == piece.bytes[i] by {
                assert(whole.subrange(0, end)[start + i] == whole[start + i]);
            }
        }
        lemma_together(pieces, k + 1);
        let next = positions.update(s as int, end as usize);
        assert forall|n: nat| n < sources.len() implies #[trigger] next[n as int] == gathered(
            more,
            n,
        ).len() by {
            assert(positions[n as int] == gathered(front, n).len());
        }
        lemma_pick(pieces, sources, indexes, lengths, combined, k + 1, next);
    }
}

/// An array that is picked together has its pieces in the order of the indexes, each of
/// them the next of its source, which is named counted from one. A zero ends it.
pub proof fn law_picked(
    pieces: Seq<Piece>,
    sources: Seq<Seq<u8>>,
    indexes: Seq<u8>,
    lengths: Seq<usize>,
    combined: bool,
)
    requires
        sources.len() <= 255,
        forall|s: nat| s < sources.len() ==> #[trigger] sources[s as int] == gathered(pieces, s),
        forall|s: int| 0 <= s < sources.len() ==> (#[trigger] sources[s]).len() <= usize::MAX,
        forall|i: int| 0 <= i < pieces.len() ==> (#[trigger] pieces[i]).source < sources.len(),
        indexes.len() == pieces.len() + 1,
        indexes.last() == 0,
        forall|i: int|
            0 <= i < pieces.len() ==> #[trigger] indexes[i] == (pieces[i].source + 1) as u8,
        lengths.len() == pieces.len() + (if combined {
            1int
        } else {
            0
        }),
        forall|i: int|
            0 <= i < pieces.len() ==> #[trigger] lengths[i] == pieces[i].bytes.len(),
    ensures
        arrays::pick(
            sources,
            indexes,
            lengths,
            combined,
            1,
            0,
            0,
            Seq::new(sources.len(), |i: int| 0usize),
            Seq::empty(),
            together(pieces).len(),
        ) == Some(together(pieces)),
{
    let none = pieces.subrange(0, 0);
    let zeroes = Seq::new(sources.len(), |i: int| 0usize);
    assert(together(none) =~= Seq::<u8>::empty());
    lemma_pick(pieces, sources, indexes, lengths, combined, 0, zeroes);
}

} // verus!
