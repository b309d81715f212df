//! What the names, texts and buffers of a resource are.

use crate::codec;
use crate::codec_leaf_laws;
use crate::codec_leaf_laws::{eight, four, is_stored, two, whole};
use crate::codec_reader;
use crate::codec_reader::{Fault, Reading, Resource};
use crate::cr2w::NameModel;
use crate::entries;
use crate::localization;
use crate::localization_text_laws::{counted_text, sevens};
use crate::number_text;
use crate::object_laws;
use crate::object_laws::{has_fields, said};
use crate::red_types;
use crate::redpackage_reader;
use crate::sequence;
use crate::text;
use crate::value;
use vstd::prelude::*;
use vstd::utf8;

verus! {

/// Whether a value was read up to an offset.
pub open spec fn reads_to(read: Reading, end: nat) -> bool {
    match read {
        Ok((_, last)) => last == end,
        Err(_) => false,
    }
}

// ---------------------------------------------------------------------------
// Names
// ---------------------------------------------------------------------------

/// The types that are known by name and hold no numbers are apart.
proof fn lemma_types()
    ensures
        "CName"@.len() == 5,
        "String"@.len() == 6,
        "NodeRef"@.len() == 7,
        "TweakDBID"@.len() == 9,
        "DataBuffer"@.len() == 10,
        "SharedDataBuffer"@.len() == 16,
        "LocalizationString"@.len() == 18,
        "gamedataLocKeyWrapper"@.len() == 21,
        "serializationDeferredDataBuffer"@.len() == 31,
        !redpackage_reader::numeric("CName"@),
        !redpackage_reader::numeric("String"@),
        !redpackage_reader::numeric("NodeRef"@),
        !redpackage_reader::numeric("TweakDBID"@),
        !redpackage_reader::numeric("DataBuffer"@),
        !redpackage_reader::numeric("SharedDataBuffer"@),
        !redpackage_reader::numeric("LocalizationString"@),
        !redpackage_reader::numeric("gamedataLocKeyWrapper"@),
        !redpackage_reader::numeric("serializationDeferredDataBuffer"@),
{
    codec_leaf_laws::lemma_types();
    reveal_strlit("CRUID");
    reveal_strlit("CDateTime");
    reveal_strlit("Double");
    reveal_strlit("CName");
    reveal_strlit("String");
    reveal_strlit("NodeRef");
    reveal_strlit("TweakDBID");
    reveal_strlit("DataBuffer");
    reveal_strlit("SharedDataBuffer");
    reveal_strlit("LocalizationString");
    reveal_strlit("gamedataLocKeyWrapper");
    reveal_strlit("serializationDeferredDataBuffer");
    assert("CName"@.len() == 5 && "String"@.len() == 6 && "NodeRef"@.len() == 7);
    assert("TweakDBID"@.len() == 9 && "DataBuffer"@.len() == 10);
    assert("SharedDataBuffer"@.len() == 16 && "LocalizationString"@.len() == 18);
    assert("gamedataLocKeyWrapper"@.len() == 21);
    assert("serializationDeferredDataBuffer"@.len() == 31);
    reveal_strlit("Uint8");
    reveal_strlit("Int16");
    reveal_strlit("Int32");
    reveal_strlit("Int64");
    reveal_strlit("Float");
    reveal_strlit("Uint16");
    reveal_strlit("Uint32");
    reveal_strlit("Uint64");
    assert("Uint8"@[0] == 'U' && "Float"@[0] == 'F' && "Int16"@[0] == 'I' && "Int32"@[0] == 'I'
        && "Int64"@[0] == 'I' && "CName"@[0] == 'C');
    assert("Uint16"@[0] == 'U' && "Uint32"@[0] == 'U' && "Uint64"@[0] == 'U' && "Double"@[0]
        == 'D');
    assert("CDateTime"@[0] == 'C');
    assert("CName"@[1] == 'N' && "CRUID"@[1] == 'R');
    assert("String"@[0] == 'S' && "TweakDBID"@[0] == 'T');
}

/// A name is stored as its index among the names of the resource.
pub proof fn law_name_read(r: Resource, start: nat, size: nat)
    requires
        start + size <= r.bytes.len(),
        start + 2 <= r.bytes.len(),
    ensures
        ({
            let i = two(r.bytes, start);
            let read = codec::value_at(r, "CName"@, start, size);
            if i < r.file.names.len() {
                read matches Ok((m, end)) && end == start + size && is_stored(
                    m,
                    "CName"@,
                    "string"@,
                    r.file.names[i as int].value,
                )
            } else {
                read == Err::<(value::Model, nat), Fault>(Fault::Malformed(start, "name index"@))
            }
        }),
{
    lemma_types();
    codec_leaf_laws::lemma_numbers(r.bytes, start);
    let i = two(r.bytes, start);
    if i < r.file.names.len() {
        codec_leaf_laws::lemma_stored("CName"@, "string"@, r.file.names[i as int].value);
    }
}

/// A value of an enumeration is stored as the index of its name.
pub proof fn law_enum_read(r: Resource, t: Seq<char>, start: nat)
    requires
        start + 2 <= r.bytes.len(),
        !codec_reader::named(t),
        !red_types::opaque_data(t),
        !text::starts_with(t, "multiChannelCurve:"@),
        !red_types::is_handle(t),
        !red_types::is_reference(t),
        codec_reader::among(r.enums, t),
    ensures
        ({
            let i = two(r.bytes, start);
            codec_reader::leaf(r, t, start, 2) == (if i < r.file.names.len() {
                Ok((said(r.file.names[i as int].value), start + 2))
            } else {
                Err(Fault::Malformed(start, "name index"@))
            })
        }),
{
    codec_leaf_laws::lemma_numbers(r.bytes, start);
}

/// Names with a comma and a space between them.
pub open spec fn separated(names: Seq<NameModel>, list: Seq<nat>) -> Seq<char>
    decreases list.len(),
{
    if list.len() == 0 {
        Seq::empty()
    } else if list.len() == 1 {
        names[list[0] as int].value
    } else {
        separated(names, list.drop_last()) + seq![',', ' '] + names[list.last() as int].value
    }
}

/// Whether the indexes of some names, none of them zero, stand in bytes behind each
/// other.
pub open spec fn indexed(r: Resource, start: nat, list: Seq<nat>) -> bool {
    forall|i: int|
        0 <= i < list.len() ==> {
            let n = #[trigger] list[i];
            &&& 0 < n < r.file.names.len()
            &&& two(r.bytes, (start + 2 * i) as nat) == n
        }
}

proof fn lemma_names(
    r: Resource,
    start: nat,
    list: Seq<nat>,
    k: nat,
    found: Seq<Seq<char>>,
    end: nat,
)
    requires
        k <= list.len(),
        indexed(r, start, list),
        end == start + 2 * list.len() + 2,
        end <= r.bytes.len(),
        two(r.bytes, start + 2 * list.len()) == 0,
        found == Seq::new(k, |i: int| r.file.names[list[i] as int].value),
    ensures
        codec_reader::names_up_to(r, start + 2 * k, end, found) == Ok::<
            (Seq<Seq<char>>, nat, bool),
            Fault,
        >((Seq::new(list.len(), |i: int| r.file.names[list[i] as int].value), end, true)),
    decreases list.len() - k,
{
    codec_leaf_laws::lemma_numbers(r.bytes, start + 2 * k);
    if k < list.len() {
        let n = list[k as int];
        assert(two(r.bytes, (start + 2 * k) as nat) == n);
        let more = found.push(r.file.names[n as int].value);
        assert(more =~= Seq::new(k + 1, |i: int| r.file.names[list[i] as int].value));
        lemma_names(r, start, list, k + 1, more, end);
    }
}

proof fn lemma_separated(names: Seq<NameModel>, list: Seq<nat>)
    ensures
        redpackage_reader::joined(
            Seq::new(list.len(), |i: int| names[list[i] as int].value),
        ) == separated(names, list),
    decreases list.len(),
{
    let all = Seq::new(list.len(), |i: int| names[list[i] as int].value);
    if list.len() > 1 {
        let front = list.drop_last();
        lemma_separated(names, front);
        assert(all.drop_last() =~= Seq::new(front.len(), |i: int| names[front[i] as int].value));
        reveal_strlit(", ");
        assert(", "@ =~= seq![',', ' ']);
    }
}

/// A value of a bit field is stored as the indexes of its names with a zero behind them.
pub proof fn law_bitfield_read(r: Resource, t: Seq<char>, start: nat, list: Seq<nat>)
    requires
        start + 2 * list.len() + 2 <= r.bytes.len(),
        indexed(r, start, list),
        two(r.bytes, start + 2 * list.len()) == 0,
        !codec_reader::named(t),
        !red_types::opaque_data(t),
        !text::starts_with(t, "multiChannelCurve:"@),
        !red_types::is_handle(t),
        !red_types::is_reference(t),
        !codec_reader::among(r.enums, t),
        codec_reader::among(r.bitfields, t),
    ensures
        codec_reader::leaf(r, t, start, 2 * list.len() + 2) == Ok::<(value::Model, nat), Fault>(
            (
                said(
                    if list.len() == 0 {
                        "0"@
                    } else {
                        separated(r.file.names, list)
                    },
                ),
                start + 2 * list.len() + 2,
            ),
        ),
{
    let none = Seq::<Seq<char>>::empty();
    assert(none =~= Seq::new(0, |i: int| r.file.names[list[i] as int].value));
    lemma_names(r, start, list, 0, none, start + 2 * list.len() + 2);
    lemma_separated(r.file.names, list);
}

// ---------------------------------------------------------------------------
// Texts
// ---------------------------------------------------------------------------

proof fn lemma_sevens(value: nat)
    ensures
        sevens(value) == localization::length_groups(value),
    decreases value,
{
    if value >= 128 {
        lemma_sevens(value / 128);
    }
}

/// A text behind the number of its bytes is read back, and nothing behind it.
pub proof fn law_string_read(bytes: Seq<u8>, start: nat, content: Seq<char>)
    requires
        utf8::encode_utf8(content).len() <= usize::MAX,
        sequence::stands(bytes, start, counted_text(content)),
    ensures
        codec_reader::string_at(bytes, start) == Ok::<(Seq<char>, nat), Fault>(
            (content, start + counted_text(content).len()),
        ),
{
    let coded = utf8::encode_utf8(content);
    let n = coded.len();
    let rest = bytes.subrange(start as int, bytes.len() as int);
    utf8::encode_utf8_valid_utf8(content);
    utf8::encode_utf8_decode_utf8(content);
    if n < 64 {
        let head = seq![(0x80 + n) as u8];
        sequence::lemma_stands_split(bytes, start, head, coded);
        sequence::lemma_stands_index(bytes, start, head, 0);
        assert(rest[0] == head[0]);
    } else {
        let head = seq![(0xc0 + n % 64) as u8];
        let groups = sevens(n / 64);
        lemma_sevens(n / 64);
        sequence::lemma_stands_split(bytes, start, head + groups, coded);
        sequence::lemma_stands_split(bytes, start, head, groups);
        sequence::lemma_stands_index(bytes, start, head, 0);
        assert(rest[0] == head[0]);
        assert(rest.subrange(1, (1 + groups.len()) as int) =~= bytes.subrange(
            start as int + 1,
            (start + 1 + groups.len()) as int,
        ));
        localization::lemma_read_groups(rest, 1, n / 64);
        localization::lemma_uncut(n);
    }
}

/// A text is read as itself, a reference to a node with how it is stored, and a localized
/// text with the number before it.
pub proof fn law_text_read(r: Resource, start: nat, size: nat, content: Seq<char>)
    requires
        start + size <= r.bytes.len(),
        utf8::encode_utf8(content).len() <= usize::MAX,
    ensures
        sequence::stands(r.bytes, start, counted_text(content)) ==> codec::value_at(
            r,
            "String"@,
            start,
            size,
        ) == Ok::<(value::Model, nat), Fault>(
            (said(content), start + counted_text(content).len()),
        ),
        sequence::stands(r.bytes, start, counted_text(content)) ==> reads_to(codec::value_at(
            r,
            "NodeRef"@,
            start,
            size,
        ), start + counted_text(content).len()) && is_stored(
            codec::value_at(r, "NodeRef"@, start, size)->Ok_0.0,
            "NodeRef"@,
            "string"@,
            content,
        ),
        sequence::stands(r.bytes, start + 8, counted_text(content)) ==> reads_to(codec::value_at(
            r,
            "LocalizationString"@,
            start,
            size,
        ), start + 8 + counted_text(content).len()) && has_fields(
            codec::value_at(r, "LocalizationString"@, start, size)->Ok_0.0,
            seq![
                ("unk1"@, said(number_text::decimal(eight(r.bytes, start)))),
                ("value"@, said(content)),
            ],
        ),
{
    lemma_types();
    if sequence::stands(r.bytes, start, counted_text(content)) {
        law_string_read(r.bytes, start, content);
        codec_leaf_laws::lemma_stored("NodeRef"@, "string"@, content);
    }
    if sequence::stands(r.bytes, start + 8, counted_text(content)) {
        law_string_read(r.bytes, start + 8, content);
        codec_leaf_laws::lemma_numbers(r.bytes, start);
        lemma_localized(number_text::decimal(eight(r.bytes, start)), content);
    }
}

proof fn lemma_localized(number: Seq<char>, content: Seq<char>)
    ensures
        has_fields(
            redpackage_reader::localized(number, content),
            seq![("unk1"@, said(number)), ("value"@, said(content))],
        ),
{
    reveal_strlit("unk1");
    reveal_strlit("value");
    assert("unk1"@.len() == 4);
    assert("value"@.len() == 5);
    codec_leaf_laws::lemma_pair("unk1"@, said(number), "value"@, said(content));
}

/// Keys are read as their numbers.
pub proof fn law_key_read(r: Resource, start: nat, size: nat)
    requires
        start + size <= r.bytes.len(),
        start + 8 <= r.bytes.len(),
    ensures
        ({
            let n = number_text::decimal(eight(r.bytes, start));
            &&& codec::value_at(r, "TweakDBID"@, start, size) matches Ok((m, end)) && end == start
                + size && is_stored(m, "TweakDBID"@, "uint64"@, n)
            &&& codec::value_at(r, "gamedataLocKeyWrapper"@, start, size) matches Ok((m, end))
                && end == start + size && has_fields(
                m,
                seq![("unk1"@, said("0"@)), ("value"@, said(n))],
            )
        }),
{
    lemma_types();
    codec_leaf_laws::lemma_numbers(r.bytes, start);
    let n = number_text::decimal(eight(r.bytes, start));
    codec_leaf_laws::lemma_stored("TweakDBID"@, "uint64"@, n);
    lemma_localized("0"@, n);
}

// ---------------------------------------------------------------------------
// Buffers
// ---------------------------------------------------------------------------

/// Whether a value is a buffer of plain bytes.
pub open spec fn is_buffer(m: value::Model, id: Seq<char>, flags: int, content: Seq<char>) -> bool {
    has_fields(
        m,
        seq![
            ("BufferId"@, said(id)),
            ("Flags"@, whole(flags)),
            ("Bytes"@, said(content)),
        ],
    )
}

proof fn lemma_buffer(id: Seq<char>, flags: int, content: Seq<char>)
    ensures
        is_buffer(
            value::Model::Object(
                entries::put(
                    entries::put(
                        entries::put(Seq::empty(), "BufferId"@, said(id)),
                        "Flags"@,
                        whole(flags),
                    ),
                    "Bytes"@,
                    said(content),
                ),
            ),
            id,
            flags,
            content,
        ),
{
    lemma_buffer_keys();
    codec_leaf_laws::lemma_triple(
        "BufferId"@,
        said(id),
        "Flags"@,
        whole(flags),
        "Bytes"@,
        said(content),
    );
}

proof fn lemma_buffer_keys()
    ensures
        "BufferId"@ != "Flags"@,
        "BufferId"@ != "Bytes"@,
        "Flags"@ != "Bytes"@,
{
    reveal_strlit("BufferId");
    reveal_strlit("Flags");
    reveal_strlit("Bytes");
    assert("BufferId"@.len() == 8);
    assert("Flags"@.len() == 5);
    assert("Bytes"@.len() == 5);
    assert("Flags"@[0] == 'F' && "Bytes"@[0] == 'B');
}

/// A buffer of the table whose bytes are not compressed has the bytes between its offset
/// and its end, its place in the table, and its flags.
pub proof fn law_table_buffer(r: Resource, index: nat, offset: nat)
    requires
        index < r.file.buffers.len(),
        r.file.buffers[index as int].offset + r.file.buffers[index as int].disk_size
            <= r.bytes.len(),
        ({
            let at = r.file.buffers[index as int].offset as int;
            r.file.buffers[index as int].disk_size < 4 || r.bytes[at] != 'K' as u8 || r.bytes[at + 1]
                != 'A' as u8 || r.bytes[at + 2] != 'R' as u8 || r.bytes[at + 3] != 'K' as u8
        }),
    ensures
        ({
            let buffer = r.file.buffers[index as int];
            codec_reader::table_buffer(r, index, offset) matches Ok(m) && is_buffer(
                m,
                number_text::decimal(index),
                buffer.flags as int,
                text::base64_text(
                    r.bytes.subrange(buffer.offset as int, buffer.offset + buffer.disk_size),
                ),
            )
        }),
{
    let buffer = r.file.buffers[index as int];
    let stored = r.bytes.subrange(buffer.offset as int, buffer.offset + buffer.disk_size);
    lemma_buffer(number_text::decimal(index), buffer.flags as int, text::base64_text(stored));
    if buffer.disk_size >= 4 {
        let at = buffer.offset as int;
        assert(stored[0] == r.bytes[at] && stored[1] == r.bytes[at + 1] && stored[2] == r.bytes[at
            + 2] && stored[3] == r.bytes[at + 3]);
    }
}

/// A buffer value is empty, or a buffer of the table under its place counted from one
/// with the high bit set, or the bytes behind their number. A deferred one has its place
/// in two bytes; a shared one stands in place.
pub proof fn law_buffer_read(r: Resource, start: nat, size: nat)
    requires
        start + size <= r.bytes.len(),
        start + 4 <= r.bytes.len(),
    ensures
        ({
            let n = four(r.bytes, start);
            let read = codec::value_at(r, "DataBuffer"@, start, size);
            &&& n == 0x8000_0000 ==> reads_to(read, start + 4) && is_buffer(
                read->Ok_0.0,
                "-1"@,
                0,
                Seq::empty(),
            )
            &&& n > 0x8000_0000 ==> read == match codec_reader::table_buffer(
                r,
                (n - 0x8000_0001) as nat,
                start,
            ) {
                Ok(m) => Ok((m, start + 4)),
                Err(f) => Err(f),
            }
            &&& n < 0x8000_0000 && n + 4 <= size ==> reads_to(read, start + 4 + n) && is_buffer(
                read->Ok_0.0,
                "-1"@,
                0,
                text::base64_text(r.bytes.subrange(start as int + 4, (start + 4 + n) as int)),
            )
            &&& n + 4 <= size ==> reads_to(
                codec::value_at(r, "SharedDataBuffer"@, start, size),
                start + 4 + n,
            ) && has_fields(
                codec::value_at(r, "SharedDataBuffer"@, start, size)->Ok_0.0,
                seq![
                    ("Flags"@, whole(0)),
                    (
                        "Bytes"@,
                        said(
                            text::base64_text(
                                r.bytes.subrange(start as int + 4, (start + 4 + n) as int),
                            ),
                        ),
                    ),
                ],
            )
        }),
        ({
            let n = two(r.bytes, start);
            let read = codec::value_at(r, "serializationDeferredDataBuffer"@, start, size);
            &&& n == 0 ==> reads_to(read, start + size) && is_buffer(
                read->Ok_0.0,
                "-1"@,
                0,
                Seq::empty(),
            )
            &&& n > 0 ==> read == match codec_reader::table_buffer(r, (n - 1) as nat, start) {
                Ok(m) => Ok((m, start + size)),
                Err(f) => Err(f),
            }
        }),
{
    lemma_types();
    codec_leaf_laws::lemma_numbers(r.bytes, start);
    let n = four(r.bytes, start);
    reveal_strlit("");
    assert(""@ =~= Seq::<char>::empty());
    lemma_buffer("-1"@, 0, Seq::empty());
    if n + 4 <= size {
        let content = r.bytes.subrange(start as int + 4, (start + 4 + n) as int);
        lemma_buffer("-1"@, 0, text::base64_text(content));
        lemma_buffer_keys();
        codec_leaf_laws::lemma_pair(
            "Flags"@,
            whole(0),
            "Bytes"@,
            said(text::base64_text(content)),
        );
    }
    codec_leaf_laws::lemma_leaf(r, "DataBuffer"@, start, size);
    codec_leaf_laws::lemma_leaf(r, "SharedDataBuffer"@, start, size);
    codec_leaf_laws::lemma_leaf(r, "serializationDeferredDataBuffer"@, start, size);
}

} // verus!
