//! The plain values of a package are read back as they were written.

use crate::binary;
use crate::number_text;
use crate::redpackage;
use crate::redpackage::Fault;
use crate::redpackage_decoder;
use crate::redpackage_encoder;
use crate::redpackage_json;
use crate::redpackage_pools;
use crate::redpackage_pools::{Source, State};
use crate::redpackage_reader;
use crate::redpackage_reader::Package;
use crate::redpackage_writer;
use crate::sequence;
use crate::value;
use vstd::prelude::*;
use vstd::utf8;

verus! {

/// How many bytes a number of a type takes.
pub open spec fn width(t: Seq<char>) -> nat {
    if t == "Bool"@ || t == "Uint8"@ || t == "Int8"@ {
        1
    } else if t == "Int16"@ || t == "Uint16"@ {
        2
    } else if t == "Int32"@ || t == "Uint32"@ {
        4
    } else if t == "Int64"@ || t == "Uint64"@ || t == "CRUID"@ || t == "CDateTime"@ {
        8
    } else if t == "Float"@ {
        4
    } else {
        8
    }
}

proof fn lemma_number(bytes: Seq<u8>, at: nat, count: nat)
    requires
        redpackage::number(bytes, at, count) is Ok,
    ensures
        at + count <= bytes.len(),
        redpackage::number(bytes, at, count)->Ok_0 < binary::byte_range(count),
        binary::le_bytes(redpackage::number(bytes, at, count)->Ok_0, count) == bytes.subrange(
            at as int,
            (at + count) as int,
        ),
{
    binary::law_write_read(bytes.subrange(at as int, (at + count) as int));
}

proof fn lemma_byte(bytes: Seq<u8>, at: nat)
    requires
        at < bytes.len(),
    ensures
        binary::le_bytes(bytes[at as int] as nat, 1) == bytes.subrange(
            at as int,
            (at + 1) as int,
        ),
{
    reveal_with_fuel(binary::le_bytes, 2);
    assert(binary::le_bytes(bytes[at as int] as nat, 1) =~= bytes.subrange(
        at as int,
        (at + 1) as int,
    ));
}

/// A number that was read out of a package is written as the bytes that it was
/// read from. A float that is none, or infinite, is read as nothing, which is not
/// written.
pub proof fn law_number_kept(p: Package, t: Seq<char>, start: nat, limit: nat)
    requires
        redpackage_reader::numeric(t),
        redpackage_reader::number_leaf(p, t, start, limit) is Ok,
    ensures
        start + width(t) <= p.bytes.len(),
        if redpackage_reader::number_leaf(p, t, start, limit)->Ok_0.0 is Null {
            redpackage_json::number_bytes(
                t,
                redpackage_reader::number_leaf(p, t, start, limit)->Ok_0.0,
                start,
            ) is Err
        } else {
            redpackage_json::number_bytes(
                t,
                redpackage_reader::number_leaf(p, t, start, limit)->Ok_0.0,
                start,
            ) == Ok::<Seq<u8>, Fault>(
                p.bytes.subrange(start as int, (start + width(t)) as int),
            )
        },
{
    let b = p.bytes;
    binary::lemma_byte_ranges();
    if t == "Bool"@ || t == "Uint8"@ || t == "Int8"@ {
        lemma_byte(b, start);
    } else if t == "Int16"@ || t == "Uint16"@ {
        lemma_number(b, start, 2);
    } else if t == "Int32"@ || t == "Uint32"@ {
        lemma_number(b, start, 4);
    } else if t == "Int64"@ {
        lemma_number(b, start, 8);
        number_text::law_parse_signed(
            redpackage_reader::signed64(redpackage::number(b, start, 8)->Ok_0),
        );
    } else if t == "Uint64"@ || t == "CRUID"@ || t == "CDateTime"@ {
        lemma_number(b, start, 8);
        number_text::law_parse_decimal(redpackage::number(b, start, 8)->Ok_0, u64::MAX as nat);
    } else if t == "Float"@ {
        lemma_number(b, start, 4);
    } else {
        lemma_number(b, start, 8);
    }
}

/// A number that stands in a template is written by the encoder as it stands
/// there, and nothing else changes.
pub proof fn law_number_rewritten(
    source: Source,
    state: State,
    t: Seq<char>,
    path: Seq<nat>,
    start: nat,
    limit: nat,
)
    requires
        redpackage_reader::numeric(t),
        redpackage_reader::shape(source.package.classes, t) is Leaf,
        redpackage_decoder::value_at(source.package, t, start, limit) is Ok,
        !(redpackage_decoder::value_at(source.package, t, start, limit)->Ok_0.0 is Null),
        start + 64 <= usize::MAX,
        limit + 64 <= usize::MAX,
    ensures
        start + width(t) <= source.package.bytes.len(),
        redpackage_writer::written_value(
            source,
            state,
            t,
            redpackage_decoder::value_at(source.package, t, start, limit)->Ok_0.0,
            path,
            start,
            limit,
        ) == Ok::<(Seq<u8>, nat, State), Fault>(
            (
                source.package.bytes.subrange(start as int, (start + width(t)) as int),
                limit,
                state,
            ),
        ),
{
    law_number_kept(source.package, t, start, limit);
}

proof fn lemma_number_there(p: Package, t: Seq<char>, value: value::Model, from: nat, at: nat)
    requires
        redpackage_reader::numeric(t),
        redpackage_json::number_bytes(t, value, from) is Ok,
        sequence::stands(
            p.bytes,
            at,
            redpackage_json::number_bytes(t, value, from)->Ok_0,
        ),
    ensures
        redpackage_json::number_bytes(t, value, from)->Ok_0.len() == width(t),
        redpackage_reader::number_leaf(p, t, at, at + width(t)) is Ok,
        redpackage_reader::number_leaf(p, t, at, at + width(t))->Ok_0.1 == at + width(t),
{
    let written = redpackage_json::number_bytes(t, value, from)->Ok_0;
    assert(written.len() == width(t)) by {
        assert forall|n: nat, count: nat| #[trigger] binary::le_bytes(n, count).len()
            == count by {
            binary::lemma_le_bytes_len(n, count);
        }
    }
}

/// A number that was written is read, and would be written so again, unless it is
/// a float that documents do not have.
pub proof fn law_number_read(p: Package, t: Seq<char>, value: value::Model, from: nat, at: nat)
    requires
        redpackage_reader::numeric(t),
        redpackage_json::number_bytes(t, value, from) is Ok,
        sequence::stands(
            p.bytes,
            at,
            redpackage_json::number_bytes(t, value, from)->Ok_0,
        ),
    ensures
        redpackage_reader::number_leaf(p, t, at, at + width(t)) is Ok,
        !(redpackage_reader::number_leaf(p, t, at, at + width(t))->Ok_0.0 is Null)
            ==> redpackage_json::number_bytes(
            t,
            redpackage_reader::number_leaf(p, t, at, at + width(t))->Ok_0.0,
            at,
        ) == redpackage_json::number_bytes(t, value, from),
{
    lemma_number_there(p, t, value, from, at);
    law_number_kept(p, t, at, at + width(t));
}

/// A text that was written behind its length is read back.
pub proof fn law_text_read(bytes: Seq<u8>, at: nat, content: Seq<char>)
    requires
        utf8::encode_utf8(content).len() <= 0xffff,
        sequence::stands(
            bytes,
            at,
            binary::le_bytes(utf8::encode_utf8(content).len(), 2) + utf8::encode_utf8(content),
        ),
    ensures
        redpackage_reader::prefixed_text(bytes, at) == Ok::<(Seq<char>, nat), Fault>(
            (content, at + 2 + utf8::encode_utf8(content).len()),
        ),
        utf8::encode_utf8(content).len() <= 0x7fff ==> redpackage_reader::signed_text(bytes, at)
            == Ok::<(Seq<char>, nat), Fault>(
            (content, at + 2 + utf8::encode_utf8(content).len()),
        ),
{
    let inner = utf8::encode_utf8(content);
    let count = binary::le_bytes(inner.len(), 2);
    binary::lemma_byte_ranges();
    binary::lemma_le_bytes_len(inner.len(), 2);
    sequence::lemma_stands_split(bytes, at, count, inner);
    binary::lemma_number_stands(bytes, at, inner.len(), 2);
    assert(bytes.subrange((at + 2) as int, (at + 2 + inner.len()) as int) =~= inner);
    utf8::encode_utf8_valid_utf8(content);
    utf8::encode_utf8_decode_utf8(content);
}

proof fn lemma_last_name(names: Seq<Seq<char>>, name: Seq<char>)
    ensures
        redpackage_pools::last_name(names, name) matches Some(index) ==> index < names.len()
            && names[index as int] == name,
    decreases names.len(),
{
    if names.len() > 0 && names.last() != name {
        lemma_last_name(names.drop_last(), name);
    }
}

/// Whether names begin with others.
pub open spec fn begins_with(names: Seq<Seq<char>>, front: Seq<Seq<char>>) -> bool {
    front.len() <= names.len() && names.subrange(0, front.len() as int) == front
}

/// A name that was written is read back, also where names were added later.
pub proof fn law_name_read(p: Package, state: State, name: Seq<char>, at: nat)
    requires
        redpackage_pools::with_name(state, name) is Ok,
        begins_with(p.names, redpackage_pools::with_name(state, name)->Ok_0.1.names),
        sequence::stands(
            p.bytes,
            at,
            binary::le_bytes(redpackage_pools::with_name(state, name)->Ok_0.0, 2),
        ),
    ensures
        redpackage_reader::name_there(p, at, at) == Ok::<Seq<char>, Fault>(name),
{
    let (index, after) = redpackage_pools::with_name(state, name)->Ok_0;
    lemma_last_name(state.names, name);
    binary::lemma_byte_ranges();
    binary::lemma_number_stands(p.bytes, at, index, 2);
    assert(after.names[index as int] == name);
    assert(p.names.subrange(0, after.names.len() as int)[index as int] == p.names[index as int]);
}

/// The types of plain texts.
pub open spec fn textual(t: Seq<char>) -> bool {
    t == "CName"@ || t == "String"@ || t == "CString"@ || t == "NodeRef"@
}

/// What a written value is read back as: a plain text as itself, and a stored
/// one as its text under its type.
pub open spec fn read_back(t: Seq<char>, value: value::Model, start: nat) -> value::Model {
    if t == "CName"@ {
        redpackage_reader::stored_text(
            "CName"@,
            redpackage_json::stored_value(value, start)->Ok_0,
        )
    } else if t == "String"@ || t == "CString"@ {
        value
    } else {
        redpackage_reader::stored_text(
            "NodeRef"@,
            redpackage_json::stored_value(value, start)->Ok_0,
        )
    }
}

/// A text or name that was written is read back at its new place.
pub proof fn law_leaf_read(
    source: Source,
    state: State,
    t: Seq<char>,
    value: value::Model,
    path: Seq<nat>,
    start: nat,
    limit: nat,
    p: Package,
    at: nat,
)
    requires
        textual(t) && !redpackage_reader::numeric(t),
        redpackage_encoder::written_leaf(source, state, t, value, path, start, limit) is Ok,
        ({
            let (written, _, after) = redpackage_encoder::written_leaf(
                source,
                state,
                t,
                value,
                path,
                start,
                limit,
            )->Ok_0;
            begins_with(p.names, after.names) && sequence::stands(p.bytes, at, written)
        }),
    ensures
        ({
            let written = redpackage_encoder::written_leaf(
                source,
                state,
                t,
                value,
                path,
                start,
                limit,
            )->Ok_0.0;
            redpackage_reader::leaf(p, t, at, at + written.len()) == Ok::<
                (value::Model, nat),
                Fault,
            >((read_back(t, value, start), at + written.len()))
        }),
{
    let written = redpackage_encoder::written_leaf(
        source,
        state,
        t,
        value,
        path,
        start,
        limit,
    )->Ok_0.0;
    if t == "CName"@ {
        let name = redpackage_json::stored_value(value, start)->Ok_0;
        law_name_read(p, state, name, at);
        binary::lemma_le_bytes_len(redpackage_pools::with_name(state, name)->Ok_0.0, 2);
    } else {
        let content = if t == "String"@ || t == "CString"@ {
            value::text_of(value)->0
        } else {
            redpackage_json::stored_value(value, start)->Ok_0
        };
        binary::lemma_le_bytes_len(utf8::encode_utf8(content).len(), 2);
        law_text_read(p.bytes, at, content);
    }
}

} // verus!
