//! Which text of an entry stands under which name.

use crate::binary;
use crate::cr2w::NameModel;
use crate::localization;
use crate::localization::{EntryModel, LocalizationError, OnScreenEntry};
use crate::localization_laws;
use crate::localization_writer;
use crate::sequence;
use vstd::prelude::*;
use vstd::utf8;

verus! {

// ---------------------------------------------------------------------------
// Bytes
// ---------------------------------------------------------------------------

/// A number in bytes of seven bits, the low ones first, each but the last marked.
pub open spec fn sevens(value: nat) -> Seq<u8>
    decreases value,
{
    if value < 128 {
        seq![value as u8]
    } else {
        seq![(0x80 + value % 128) as u8] + sevens(value / 128)
    }
}

/// A text behind the number of its bytes, whose first byte is marked as that of UTF-8
/// and has room for six bits.
pub open spec fn counted_text(text: Seq<char>) -> Seq<u8> {
    let coded = utf8::encode_utf8(text);
    let n = coded.len();
    if n < 64 {
        seq![(0x80 + n) as u8] + coded
    } else {
        seq![(0xc0 + n % 64) as u8] + sevens(n / 64) + coded
    }
}

/// A text of an entry: the name and the type it stands under, and the text.
pub ghost struct Line {
    pub name: nat,
    pub red_type: nat,
    pub text: Seq<char>,
}

/// The bytes of a property: the indexes of its name and its type, the size of what
/// follows with that of the size itself, and what it holds.
pub open spec fn stored(name: nat, red_type: nat, content: Seq<u8>) -> Seq<u8> {
    binary::le_bytes(name, 2) + binary::le_bytes(red_type, 2) + binary::le_bytes(
        content.len() + 4,
        4,
    ) + content
}

/// The bytes of some lines, one behind the other.
pub open spec fn lines_bytes(lines: Seq<Line>) -> Seq<u8>
    decreases lines.len(),
{
    if lines.len() == 0 {
        Seq::empty()
    } else {
        stored(lines[0].name, lines[0].red_type, counted_text(lines[0].text)) + lines_bytes(
            lines.drop_first(),
        )
    }
}

/// Whether a line is one of an entry: its type is that of texts, and its name one of the
/// three that entries have.
pub open spec fn is_line(names: Seq<NameModel>, line: Line) -> bool {
    &&& 0 < line.name < names.len()
    &&& line.name <= 0xffff
    &&& line.red_type < names.len()
    &&& line.red_type <= 0xffff
    &&& names[line.red_type as int].value == "String"@
    &&& {
        let name = names[line.name as int].value;
        name == "femaleVariant"@ || name == "maleVariant"@ || name == "secondaryKey"@
    }
    &&& counted_text(line.text).len() + 4 <= 0xffff_ffff
    &&& utf8::encode_utf8(line.text).len() <= usize::MAX
}

/// The last text among some lines under a name, or none.
pub open spec fn text_under(names: Seq<NameModel>, lines: Seq<Line>, name: Seq<char>) -> Seq<char>
    decreases lines.len(),
{
    if lines.len() == 0 {
        Seq::empty()
    } else if names[lines.last().name as int].value == name {
        lines.last().text
    } else {
        text_under(names, lines.drop_last(), name)
    }
}

// ---------------------------------------------------------------------------
// Reading
// ---------------------------------------------------------------------------

proof fn lemma_sevens(value: nat)
    ensures
        sevens(value) == localization::length_groups(value),
    decreases value,
{
    if value >= 128 {
        lemma_sevens(value / 128);
    }
}

proof fn lemma_counted(text: Seq<char>)
    ensures
        counted_text(text) == localization_writer::text_payload(text),
{
    let n = utf8::encode_utf8(text).len();
    if n >= 64 {
        lemma_sevens(n / 64);
    }
}

/// A property that holds a text under one of the three names sets that text, and no
/// other.
pub proof fn law_line_read(
    bytes: Seq<u8>,
    at: nat,
    names: Seq<NameModel>,
    line: Line,
    entry: EntryModel,
)
    requires
        is_line(names, line),
        sequence::stands(
            bytes,
            at,
            stored(line.name, line.red_type, counted_text(line.text)),
        ),
    ensures
        ({
            let next = at + 8 + counted_text(line.text).len();
            let name = names[line.name as int].value;
            localization::entry_from(bytes, at, names, entry) == localization::entry_from(
                bytes,
                next,
                names,
                if name == "femaleVariant"@ {
                    EntryModel { female_variant: line.text, ..entry }
                } else if name == "maleVariant"@ {
                    EntryModel { male_variant: line.text, ..entry }
                } else {
                    EntryModel { secondary_key: line.text, ..entry }
                },
            )
        }),
{
    lemma_counted(line.text);
    let payload = localization_writer::text_payload(line.text);
    localization_laws::lemma_read_property(
        bytes,
        at,
        names.len(),
        line.name,
        line.red_type,
        payload,
    );
    localization::law_prefixed_string(line.text);
}

/// An entry with the texts of some lines.
spec fn with_lines(names: Seq<NameModel>, lines: Seq<Line>, entry: EntryModel) -> EntryModel {
    EntryModel {
        female_variant: text_under(names, lines, "femaleVariant"@),
        male_variant: text_under(names, lines, "maleVariant"@),
        secondary_key: text_under(names, lines, "secondaryKey"@),
        ..entry
    }
}

proof fn lemma_lines_split(lines: Seq<Line>, i: nat)
    requires
        i <= lines.len(),
    ensures
        lines_bytes(lines) == lines_bytes(lines.subrange(0, i as int)) + lines_bytes(
            lines.subrange(i as int, lines.len() as int),
        ),
    decreases lines.len(),
{
    let rest = lines.subrange(i as int, lines.len() as int);
    if i == 0 {
        assert(lines.subrange(0, 0) =~= Seq::<Line>::empty());
        assert(rest =~= lines);
        assert(lines_bytes(lines) =~= Seq::<u8>::empty() + lines_bytes(lines));
    } else {
        let tail = lines.drop_first();
        lemma_lines_split(tail, (i - 1) as nat);
        assert(tail.subrange(i - 1, tail.len() as int) =~= rest);
        let front = lines.subrange(0, i as int);
        assert(front.drop_first() =~= tail.subrange(0, i - 1));
        let first = stored(lines[0].name, lines[0].red_type, counted_text(lines[0].text));
        assert(first + (lines_bytes(front.drop_first()) + lines_bytes(rest)) =~= (first
            + lines_bytes(front.drop_first())) + lines_bytes(rest));
    }
}

proof fn lemma_distinct()
    ensures
        "femaleVariant"@ != "maleVariant"@,
        "femaleVariant"@ != "secondaryKey"@,
        "maleVariant"@ != "secondaryKey"@,
{
    reveal_strlit("femaleVariant");
    reveal_strlit("maleVariant");
    reveal_strlit("secondaryKey");
    assert("femaleVariant"@.len() == 13);
    assert("maleVariant"@.len() == 11);
    assert("secondaryKey"@.len() == 12);
}

proof fn lemma_lines_from(
    bytes: Seq<u8>,
    at: nat,
    names: Seq<NameModel>,
    lines: Seq<Line>,
    entry: EntryModel,
    i: nat,
)
    requires
        i <= lines.len(),
        forall|k: int| 0 <= k < lines.len() ==> is_line(names, #[trigger] lines[k]),
        sequence::stands(bytes, at, lines_bytes(lines)),
    ensures
        localization::entry_from(
            bytes,
            at + lines_bytes(lines.subrange(0, i as int)).len(),
            names,
            with_lines(names, lines.subrange(0, i as int), entry),
        ) == localization::entry_from(
            bytes,
            at + lines_bytes(lines).len(),
            names,
            with_lines(names, lines, entry),
        ),
    decreases lines.len() - i,
{
    if i == lines.len() {
        assert(lines.subrange(0, i as int) =~= lines);
    } else {
        let front = lines.subrange(0, i as int);
        let more = lines.subrange(0, i as int + 1);
        let line = lines[i as int];
        let own = stored(line.name, line.red_type, counted_text(line.text));
        lemma_distinct();
        lemma_lines_split(lines, i);
        lemma_lines_split(lines, i + 1);
        let rest = lines.subrange(i as int, lines.len() as int);
        assert(rest[0] == line);
        assert(rest.drop_first() =~= lines.subrange(i as int + 1, lines.len() as int));
        sequence::lemma_stands_split(bytes, at, lines_bytes(front), lines_bytes(rest));
        let spot = at + lines_bytes(front).len();
        sequence::lemma_stands_split(bytes, spot, own, lines_bytes(rest.drop_first()));
        assert(more.drop_last() =~= front);
        assert(more.last() == line);
        lemma_lines_split(more, i);
        assert(more.subrange(0, i as int) =~= front);
        let single = more.subrange(i as int, more.len() as int);
        assert(single.drop_first() =~= Seq::<Line>::empty());
        assert(single[0] == line);
        assert(lines_bytes(single) =~= own);
        binary::lemma_le_bytes_len(line.name, 2);
        binary::lemma_le_bytes_len(line.red_type, 2);
        binary::lemma_le_bytes_len(counted_text(line.text).len() + 4, 4);
        law_line_read(bytes, spot, names, line, with_lines(names, front, entry));
        lemma_lines_from(bytes, at, names, lines, entry, i + 1);
    }
}

/// An entry is read with the last text under each of its three names. A text that no
/// line has is empty.
pub proof fn law_entry_read(bytes: Seq<u8>, at: nat, names: Seq<NameModel>, lines: Seq<Line>)
    requires
        forall|k: int| 0 <= k < lines.len() ==> is_line(names, #[trigger] lines[k]),
        sequence::stands(bytes, at, lines_bytes(lines) + seq![0u8, 0]),
    ensures
        localization::entry_from(bytes, at, names, localization::empty_entry()) == Ok::<
            (EntryModel, nat),
            LocalizationError,
        >(
            (
                EntryModel {
                    red_type: "localizationPersistenceOnScreenEntry"@,
                    female_variant: text_under(names, lines, "femaleVariant"@),
                    male_variant: text_under(names, lines, "maleVariant"@),
                    primary_key: "0"@,
                    secondary_key: text_under(names, lines, "secondaryKey"@),
                },
                at + lines_bytes(lines).len() + 2,
            ),
        ),
{
    let zero = seq![0u8, 0];
    let none = Seq::<Line>::empty();
    let end = at + lines_bytes(lines).len();
    sequence::lemma_stands_split(bytes, at, lines_bytes(lines), zero);
    assert(lines.subrange(0, 0) =~= none);
    lemma_lines_from(bytes, at, names, lines, localization::empty_entry(), 0);
    assert(with_lines(names, none, localization::empty_entry())
        == localization::empty_entry());
    reveal_with_fuel(binary::le_bytes, 3);
    assert(binary::le_bytes(0, 2) =~= zero);
    binary::lemma_byte_ranges();
    binary::lemma_number_stands(bytes, end, 0, 2);
}

/// The bytes of some entries, each a marker, its lines and a name of zero.
pub open spec fn listed_bytes(list: Seq<Seq<Line>>) -> Seq<u8>
    decreases list.len(),
{
    if list.len() == 0 {
        Seq::empty()
    } else {
        seq![0u8] + (lines_bytes(list[0]) + seq![0u8, 0]) + listed_bytes(list.drop_first())
    }
}

/// An entry with the last text under each of the three names.
pub open spec fn entry_of(names: Seq<NameModel>, lines: Seq<Line>) -> EntryModel {
    EntryModel {
        red_type: "localizationPersistenceOnScreenEntry"@,
        female_variant: text_under(names, lines, "femaleVariant"@),
        male_variant: text_under(names, lines, "maleVariant"@),
        primary_key: "0"@,
        secondary_key: text_under(names, lines, "secondaryKey"@),
    }
}

proof fn lemma_list(
    bytes: Seq<u8>,
    at: nat,
    names: Seq<NameModel>,
    list: Seq<Seq<Line>>,
    found: Seq<EntryModel>,
)
    requires
        forall|i: int, k: int|
            0 <= i < list.len() && 0 <= k < list[i].len() ==> is_line(names, #[trigger] list[i][k]),
        sequence::stands(bytes, at, listed_bytes(list)),
    ensures
        localization::entries_from(bytes, at, list.len(), names, found) == Ok::<
            Seq<EntryModel>,
            LocalizationError,
        >(found + Seq::new(list.len(), |i: int| entry_of(names, list[i]))),
    decreases list.len(),
{
    let all = Seq::new(list.len(), |i: int| entry_of(names, list[i]));
    if list.len() == 0 {
        assert(found + all =~= found);
    } else {
        let rest = list.drop_first();
        let own = lines_bytes(list[0]) + seq![0u8, 0];
        sequence::lemma_stands_split(bytes, at, seq![0u8] + own, listed_bytes(rest));
        sequence::lemma_stands_split(bytes, at, seq![0u8], own);
        sequence::lemma_stands_index(bytes, at, seq![0u8], 0);
        law_entry_read(bytes, at + 1, names, list[0]);
        let next = found.push(entry_of(names, list[0]));
        assert forall|i: int, k: int|
            0 <= i < rest.len() && 0 <= k < rest[i].len() implies is_line(
            names,
            #[trigger] rest[i][k],
        ) by {
            assert(is_line(names, list[i + 1][k]));
        }
        lemma_list(bytes, at + 1 + own.len(), names, rest, next);
        assert(next + Seq::new(rest.len(), |i: int| entry_of(names, rest[i])) =~= found + all);
    }
}

/// The object of a resource gives its entries in their order, each with the last text
/// under each of its three names.
pub proof fn law_object_read(
    bytes: Seq<u8>,
    at: nat,
    names: Seq<NameModel>,
    name: nat,
    red_type: nat,
    list: Seq<Seq<Line>>,
)
    requires
        0 < name < names.len(),
        name <= 0xffff,
        red_type < names.len(),
        red_type <= 0xffff,
        names[name as int].value == "entries"@,
        names[red_type as int].value == "array:localizationPersistenceOnScreenEntry"@,
        list.len() <= 0xffff_ffff,
        listed_bytes(list).len() + 8 <= 0xffff_ffff,
        forall|i: int, k: int|
            0 <= i < list.len() && 0 <= k < list[i].len() ==> is_line(names, #[trigger] list[i][k]),
        sequence::stands(
            bytes,
            at,
            seq![0u8] + stored(
                name,
                red_type,
                binary::le_bytes(list.len(), 4) + listed_bytes(list),
            ),
        ),
    ensures
        localization::entries_object(bytes, at, names) == Ok::<Seq<EntryModel>, LocalizationError>(
            Seq::new(list.len(), |i: int| entry_of(names, list[i])),
        ),
{
    let count = binary::le_bytes(list.len(), 4);
    let array = count + listed_bytes(list);
    binary::lemma_le_bytes_len(list.len(), 4);
    sequence::lemma_stands_split(bytes, at, seq![0u8], stored(name, red_type, array));
    sequence::lemma_stands_index(bytes, at, seq![0u8], 0);
    localization_laws::lemma_read_property(bytes, at + 1, names.len(), name, red_type, array);
    binary::lemma_byte_ranges();
    binary::law_read_written(list.len(), 4);
    assert(array.subrange(0, 4) =~= count);
    assert(array.subrange(4, array.len() as int) =~= listed_bytes(list));
    lemma_list(array, 4, names, list, Seq::empty());
    let all = Seq::new(list.len(), |i: int| entry_of(names, list[i]));
    assert(Seq::<EntryModel>::empty() + all =~= all);
}

// ---------------------------------------------------------------------------
// Writing
// ---------------------------------------------------------------------------

/// Whether an index is that of the first name with a value.
pub open spec fn leads_to(names: Seq<NameModel>, index: nat, value: Seq<char>) -> bool {
    &&& index < names.len()
    &&& index <= 0xffff
    &&& names[index as int].value == value
    &&& forall|k: int| 0 <= k < index ==> (#[trigger] names[k]).value != value
}

/// The bytes of a text under a name, or none for an empty text.
pub open spec fn named_text(name: nat, red_type: nat, text: Seq<char>) -> Seq<u8> {
    if text.len() == 0 {
        Seq::empty()
    } else {
        stored(name, red_type, counted_text(text))
    }
}

proof fn lemma_leads(names: Seq<NameModel>, index: nat, value: Seq<char>, i: nat)
    requires
        leads_to(names, index, value),
        i <= index,
    ensures
        localization_writer::index_from(names, value, i) == Some(index),
    decreases index - i,
{
    if i < index {
        assert(names[i as int].value != value);
        lemma_leads(names, index, value, i + 1);
    }
}

proof fn lemma_text_property(
    names: Seq<NameModel>,
    index: nat,
    red_type: nat,
    name: Seq<char>,
    text: Seq<char>,
)
    requires
        text.len() > 0 ==> leads_to(names, index, name) && leads_to(names, red_type, "String"@)
            && counted_text(text).len() + 4 <= 0xffff_ffff,
    ensures
        localization_writer::text_property(names, name, text) == Ok::<
            Seq<u8>,
            LocalizationError,
        >(named_text(index, red_type, text)),
{
    if text.len() > 0 {
        lemma_leads(names, index, name, 0);
        lemma_leads(names, red_type, "String"@, 0);
        lemma_counted(text);
    }
}

/// An entry is written with each of its texts in a property whose name leads to that
/// of the text: its key, its female variant and its male variant.
pub proof fn law_entry_written(
    names: Seq<NameModel>,
    entry: EntryModel,
    key: nat,
    female: nat,
    male: nat,
    red_type: nat,
)
    requires
        entry.primary_key == "0"@,
        entry.secondary_key.len() > 0 ==> leads_to(names, key, "secondaryKey"@) && leads_to(
            names,
            red_type,
            "String"@,
        ) && counted_text(entry.secondary_key).len() + 4 <= 0xffff_ffff,
        entry.female_variant.len() > 0 ==> leads_to(names, female, "femaleVariant"@) && leads_to(
            names,
            red_type,
            "String"@,
        ) && counted_text(entry.female_variant).len() + 4 <= 0xffff_ffff,
        entry.male_variant.len() > 0 ==> leads_to(names, male, "maleVariant"@) && leads_to(
            names,
            red_type,
            "String"@,
        ) && counted_text(entry.male_variant).len() + 4 <= 0xffff_ffff,
    ensures
        localization_writer::entry_bytes(names, entry) == Ok::<Seq<u8>, LocalizationError>(
            seq![0u8] + named_text(key, red_type, entry.secondary_key) + named_text(
                female,
                red_type,
                entry.female_variant,
            ) + named_text(male, red_type, entry.male_variant) + seq![0u8, 0],
        ),
{
    lemma_text_property(names, key, red_type, "secondaryKey"@, entry.secondary_key);
    lemma_text_property(names, female, red_type, "femaleVariant"@, entry.female_variant);
    lemma_text_property(names, male, red_type, "maleVariant"@, entry.male_variant);
    reveal_with_fuel(binary::le_bytes, 3);
    assert(binary::le_bytes(0, 2) =~= seq![0u8, 0]);
}

/// An entry is seen by its own texts.
pub proof fn law_entry_seen(entry: OnScreenEntry)
    ensures
        entry@.red_type == entry.red_type@,
        entry@.female_variant == entry.female_variant@,
        entry@.male_variant == entry.male_variant@,
        entry@.primary_key == entry.primary_key@,
        entry@.secondary_key == entry.secondary_key@,
{
}

} // verus!
