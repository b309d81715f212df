//! The values of documents, written in the layout of a template package.

use crate::binary;
use crate::binary::{write_u16, write_u32, write_u64};
use crate::number_text;
use crate::number_text::parse_unsigned;
use crate::red_types;
use crate::red_types::{is_text, names_handle, names_reference};
use crate::redpackage;
use crate::redpackage::{malformed, u32_at, unsupported, PackageError};
use crate::redpackage_decoder;
use crate::redpackage_json;
use crate::redpackage_json::{
    encode_number, json_f32, json_string_u64, json_u64, storage_value, tweak_db_id,
};
use crate::redpackage_pools;
use crate::redpackage_pools::{Encoder, Source, State};
use crate::redpackage_reader;
use crate::redpackage_reader::{is_numeric, length_prefixed_string, signed_length_string};
use crate::sequence::append;
use crate::text;
use crate::text::{chars_of, decode_base64, same_text, text_of};
use crate::value;
use crate::value::Value;
use vstd::prelude::*;
use vstd::slice::slice_subrange;
use vstd::utf8;

verus! {

/// The bytes of a value, where the value of the template ends, and what was
/// collected.
pub type Written = Result<(Seq<u8>, nat, State), redpackage::Fault>;

/// A name's index in two bytes.
pub open spec fn written_name(state: State, name: Seq<char>, end: nat) -> Written {
    match redpackage_pools::with_name(state, name) {
        Ok((index, after)) => Ok((binary::le_bytes(index, 2), end, after)),
        Err(f) => Err(f),
    }
}

/// A text behind its length.
pub open spec fn length_text(content: Seq<char>, max: nat, offset: nat, reason: Seq<char>) -> Result<
    Seq<u8>,
    redpackage::Fault,
> {
    let bytes = utf8::encode_utf8(content);
    if bytes.len() > max {
        redpackage::fault(offset, reason)
    } else {
        Ok(binary::le_bytes(bytes.len(), 2) + bytes)
    }
}

/// A text behind its signed length, in place of one in the template.
pub open spec fn signed_length_text(
    source: Source,
    state: State,
    content: Result<Seq<char>, redpackage::Fault>,
    start: nat,
    reason: Seq<char>,
) -> Written {
    match content {
        Err(f) => Err(f),
        Ok(content) => match length_text(content, 0x7fff, start, reason) {
            Err(f) => Err(f),
            Ok(bytes) => match redpackage_reader::signed_text(source.package.bytes, start) {
                Err(f) => Err(f),
                Ok((_, end)) => Ok((bytes, end, state)),
            },
        },
    }
}

/// A text in place of one in the template.
pub open spec fn plain_text(source: Source, state: State, value: value::Model, start: nat) -> Written {
    match value::text_of(value) {
        None => redpackage::fault(start, "string JSON"@),
        Some(content) => match length_text(content, 0xffff, start, "string length"@) {
            Err(f) => Err(f),
            Ok(bytes) => match redpackage_reader::prefixed_text(source.package.bytes, start) {
                Err(f) => Err(f),
                Ok((_, end)) => Ok((bytes, end, state)),
            },
        },
    }
}

/// A localized text in place of one in the template.
pub open spec fn localized_text(source: Source, state: State, value: value::Model, start: nat) -> Written {
    let unknown = match redpackage_pools::text_member(value, "unk1"@) {
        None => None,
        Some(content) => number_text::unsigned_value(content, u64::MAX as nat),
    };
    match unknown {
        None => redpackage::fault(start, "LocalizationString.unk1"@),
        Some(unknown) => match redpackage_pools::text_member(value, "value"@) {
            None => redpackage::fault(start, "LocalizationString.value"@),
            Some(content) => match length_text(
                content,
                0xffff,
                start,
                "LocalizationString length"@,
            ) {
                Err(f) => Err(f),
                Ok(bytes) => match redpackage_reader::prefixed_text(
                    source.package.bytes,
                    start + 8,
                ) {
                    Err(f) => Err(f),
                    Ok((_, end)) => Ok((binary::le_bytes(unknown, 8) + bytes, end, state)),
                },
            },
        },
    }
}

/// A buffer in place of one in the template.
pub open spec fn buffer_bytes(source: Source, state: State, value: value::Model, start: nat) -> Written {
    match redpackage_pools::text_member(value, "Bytes"@) {
        None => redpackage::fault(start, "DataBuffer Bytes"@),
        Some(content) => match text::base64_bytes(content) {
            None => redpackage::fault(start, "DataBuffer base64"@),
            Some(bytes) => if bytes.len() > 0xffff_ffff {
                redpackage::fault(start, "DataBuffer length"@)
            } else {
                match redpackage::number(source.package.bytes, start, 4) {
                    Err(f) => Err(f),
                    Ok(length) => if start + 4 + length > usize::MAX {
                        redpackage::fault(start, "DataBuffer template length"@)
                    } else {
                        Ok(
                            (
                                binary::le_bytes(bytes.len(), 4) + bytes,
                                start + 4 + length,
                                state,
                            ),
                        )
                    },
                }
            },
        },
    }
}

/// A handle in place of one in the template.
pub open spec fn handle_bytes(
    source: Source,
    state: State,
    value: value::Model,
    path: Seq<nat>,
    start: nat,
) -> Written {
    match redpackage_reader::handle_pointer(source.package, start) {
        Err(f) => Err(f),
        Ok((template, end)) => match redpackage_pools::resolved(
            source,
            state,
            value,
            path,
            template,
            start,
        ) {
            Err(f) => Err(f),
            Ok((pointer, after)) => if source.package.version == 2 {
                if pointer > 0x7fff {
                    redpackage::fault(start, "handle pointer"@)
                } else {
                    Ok(
                        (
                            binary::le_bytes(redpackage_json::wrapped(pointer, 2), 2),
                            end,
                            after,
                        ),
                    )
                }
            } else {
                Ok((binary::le_bytes(redpackage_json::wrapped(pointer, 4), 4), end, after))
            },
        },
    }
}

/// The text under a key of the value under another.
pub open spec fn inner_text(value: value::Model, outer: Seq<char>, key: Seq<char>) -> Option<
    Seq<char>,
> {
    match value::member(value, outer) {
        None => None,
        Some(inner) => redpackage_pools::text_member(inner, key),
    }
}

/// A resource reference.
pub open spec fn reference_bytes(
    source: Source,
    state: State,
    value: value::Model,
    start: nat,
) -> Written {
    match inner_text(value, "DepotPath"@, "$value"@) {
        None => redpackage::fault(start, "resource path"@),
        Some(path) => {
            let soft = redpackage_pools::text_member(value, "Flags"@) == Some("Soft"@);
            let explicit = if inner_text(value, "DepotPath"@, "$storage"@) == Some("uint64"@) {
                number_text::unsigned_value(path, u64::MAX as nat)
            } else {
                None
            };
            if path == "0"@ {
                Ok((binary::le_bytes(0xffff, 2), start + 2, state))
            } else {
                match redpackage_pools::with_import(source, state, path, explicit, soft) {
                    Err(f) => Err(f),
                    Ok((index, after)) => if index > 0x7fff {
                        redpackage::fault(0, "import index"@)
                    } else {
                        Ok((binary::le_bytes(index, 2), start + 2, after))
                    },
                }
            }
        },
    }
}

/// Names from index `i` on, behind the bytes written.
pub open spec fn written_names(state: State, names: Seq<Seq<char>>, i: nat, bytes: Seq<u8>) -> Result<
    (Seq<u8>, State),
    redpackage::Fault,
>
    decreases names.len() - i,
{
    if i >= names.len() {
        Ok((bytes, state))
    } else {
        match redpackage_pools::with_name(state, names[i as int]) {
            Err(f) => Err(f),
            Ok((index, after)) => written_names(
                after,
                names,
                i + 1,
                bytes + binary::le_bytes(index, 2),
            ),
        }
    }
}

/// An enumeration or a bit field.
pub open spec fn other_bytes(
    state: State,
    t: Seq<char>,
    value: value::Model,
    start: nat,
    limit: nat,
) -> Written {
    if limit == start + 2 {
        match value::text_of(value) {
            None => redpackage::fault(start, "enum JSON"@),
            Some(content) => written_name(state, content, limit),
        }
    } else {
        match value::text_of(value) {
            None => Err(redpackage::Fault::Unsupported(t)),
            Some(content) => {
                let names = redpackage_json::names_in(content);
                if names.len() > 0xff {
                    redpackage::fault(start, "bitfield count"@)
                } else {
                    match written_names(state, names, 0, seq![names.len() as u8]) {
                        Err(f) => Err(f),
                        Ok((bytes, after)) => Ok((bytes, limit, after)),
                    }
                }
            },
        }
    }
}

/// A value that holds no other values.
pub open spec fn written_leaf(
    source: Source,
    state: State,
    t: Seq<char>,
    value: value::Model,
    path: Seq<nat>,
    start: nat,
    limit: nat,
) -> Written {
    if redpackage_reader::numeric(t) {
        match redpackage_json::number_bytes(t, value, start) {
            Ok(bytes) => Ok((bytes, limit, state)),
            Err(f) => Err(f),
        }
    } else if t == "CName"@ {
        match redpackage_json::stored_value(value, start) {
            Err(f) => Err(f),
            Ok(name) => written_name(state, name, limit),
        }
    } else if t == "String"@ || t == "CString"@ {
        plain_text(source, state, value, start)
    } else if t == "NodeRef"@ {
        signed_length_text(
            source,
            state,
            redpackage_json::stored_value(value, start),
            start,
            "NodeRef length"@,
        )
    } else if t == "TweakDBID"@ {
        if source.package.version == 4 {
            match redpackage_json::stored_value(value, start) {
                Err(f) => Err(f),
                Ok(content) => Ok(
                    (binary::le_bytes(redpackage_json::tweak_id(content), 8), limit, state),
                ),
            }
        } else {
            signed_length_text(
                source,
                state,
                redpackage_json::stored_value(value, start),
                start,
                "TweakDBID length"@,
            )
        }
    } else if t == "LocalizationString"@ {
        localized_text(source, state, value, start)
    } else if t == "DataBuffer"@ {
        buffer_bytes(source, state, value, start)
    } else if red_types::is_handle(t) {
        handle_bytes(source, state, value, path, start)
    } else if red_types::is_reference(t) {
        reference_bytes(source, state, value, start)
    } else {
        other_bytes(state, t, value, start, limit)
    }
}

fn text_under<'a>(value: &'a Value, key: &str) -> (result: Option<&'a str>)
    ensures
        match redpackage_pools::text_member(value@, key@) {
            Some(content) => result matches Some(r) && r@ == content,
            None => result is None,
        },
{
    match value.get(key) {
        Some(inner) => inner.as_text(),
        None => None,
    }
}

fn text_inside<'a>(value: &'a Value, outer: &str, key: &str) -> (result: Option<&'a str>)
    ensures
        match inner_text(value@, outer@, key@) {
            Some(content) => result matches Some(r) && r@ == content,
            None => result is None,
        },
{
    match value.get(outer) {
        Some(inner) => text_under(inner, key),
        None => None,
    }
}

fn encode_text(content: &str, max: usize, offset: usize, reason: &'static str) -> (result: Result<
    Vec<u8>,
    PackageError,
>)
    requires
        max <= 0xffff,
    ensures
        match length_text(content@, max as nat, offset as nat, reason@) {
            Ok(bytes) => result matches Ok(r) && r@ == bytes,
            Err(f) => result matches Err(e) && e@ == f,
        },
{
    let bytes: &[u8] = content.as_bytes();
    if bytes.len() > max {
        return Err(malformed(offset, reason));
    }
    let mut output: Vec<u8> = Vec::new();
    write_u16(&mut output, bytes.len() as u16);
    append(&mut output, bytes);
    assert(output@ =~= binary::le_bytes(bytes@.len(), 2) + bytes@);
    Ok(output)
}

#[verifier::loop_isolation(false)]
fn split_names(chars: &[char]) -> (result: Vec<Vec<char>>)
    ensures
        result@.map_values(|n: Vec<char>| n@) == redpackage_json::names_in(chars@),
    decreases chars@.len(),
{
    let mut at: usize = 0;
    let mut searching: bool = true;
    assert(chars@.subrange(0, chars@.len() as int) =~= chars@);
    while searching
        invariant
            at <= chars@.len(),
            redpackage_json::comma(chars@) == at + redpackage_json::comma(
                chars@.subrange(at as int, chars@.len() as int),
            ),
            !searching ==> chars@.len() - at < 2 || (chars@[at as int] == ',' && chars@[at + 1]
                == ' '),
        decreases
            chars@.len() - at + (if searching {
                1int
            } else {
                0int
            }),
    {
        let ghost rest = chars@.subrange(at as int, chars@.len() as int);
        if chars.len() - at < 2 {
            searching = false;
        } else if chars[at] == ',' && chars[at + 1] == ' ' {
            searching = false;
        } else {
            assert(rest[0] == chars@[at as int]);
            assert(rest[1] == chars@[at + 1]);
            assert(rest.drop_first() =~= chars@.subrange(at + 1, chars@.len() as int));
            at = at + 1;
        }
    }
    let ghost wanted = redpackage_json::names_in(chars@);
    if chars.len() - at < 2 {
        let mut names: Vec<Vec<char>> = Vec::new();
        if chars.len() == 0 {
            assert(names@.map_values(|n: Vec<char>| n@) =~= wanted);
            return names;
        }
        let whole: Vec<char> = text::part_of(chars, 0, chars.len());
        names.push(whole);
        assert(names@.map_values(|n: Vec<char>| n@) =~= wanted);
        return names;
    }
    proof {
        let rest = chars@.subrange(at as int, chars@.len() as int);
        assert(rest[0] == ',' && rest[1] == ' ');
    }
    let mut names: Vec<Vec<char>> = split_names(slice_subrange(chars, at + 2, chars.len()));
    if at > 0 {
        let first: Vec<char> = text::part_of(chars, 0, at);
        let ghost rest = names@;
        names.insert(0, first);
        assert(names@.map_values(|n: Vec<char>| n@) =~= seq![chars@.subrange(0, at as int)]
            + rest.map_values(|n: Vec<char>| n@));
    }
    names
}

impl<'a> Encoder<'a> {
    fn encode_name(&mut self, name: &str, end: usize) -> (result: Result<
        (Vec<u8>, usize),
        PackageError,
    >)
        ensures
            final(self).source() == old(self).source(),
            final(self).reader == old(self).reader,
            match written_name(old(self)@, name@, end as nat) {
                Ok((bytes, behind, state)) => result matches Ok(r) && r.0@ == bytes && r.1
                    == behind && final(self)@ == state,
                Err(f) => result matches Err(e) && e@ == f,
            },
    {
        let index: u16 = match self.name_index(name) {
            Ok(index) => index,
            Err(error) => return Err(error),
        };
        let mut bytes: Vec<u8> = Vec::new();
        write_u16(&mut bytes, index);
        assert(bytes@ =~= binary::le_bytes(index as nat, 2));
        Ok((bytes, end))
    }

    fn encode_signed_text(&self, content: &str, start: usize, reason: &'static str) -> (result: Result<
        (Vec<u8>, usize),
        PackageError,
    >)
        ensures
            match signed_length_text(
                self.source(),
                self@,
                Ok(content@),
                start as nat,
                reason@,
            ) {
                Ok((bytes, end, _)) => result matches Ok(r) && r.0@ == bytes && r.1 == end,
                Err(f) => result matches Err(e) && e@ == f,
            },
    {
        let bytes: Vec<u8> = match encode_text(content, 0x7fff, start, reason) {
            Ok(bytes) => bytes,
            Err(error) => return Err(error),
        };
        match signed_length_string(self.reader.bytes, start) {
            Ok((_, end)) => Ok((bytes, end)),
            Err(error) => Err(error),
        }
    }

    fn encode_plain_text(&self, value: &Value, start: usize) -> (result: Result<
        (Vec<u8>, usize),
        PackageError,
    >)
        ensures
            match plain_text(self.source(), self@, value@, start as nat) {
                Ok((bytes, end, _)) => result matches Ok(r) && r.0@ == bytes && r.1 == end,
                Err(f) => result matches Err(e) && e@ == f,
            },
    {
        let content: &str = match value.as_text() {
            Some(content) => content,
            None => return Err(malformed(start, "string JSON")),
        };
        let bytes: Vec<u8> = match encode_text(content, 0xffff, start, "string length") {
            Ok(bytes) => bytes,
            Err(error) => return Err(error),
        };
        match length_prefixed_string(self.reader.bytes, start) {
            Ok((_, end)) => Ok((bytes, end)),
            Err(error) => Err(error),
        }
    }

    fn encode_localized(&self, value: &Value, start: usize) -> (result: Result<
        (Vec<u8>, usize),
        PackageError,
    >)
        requires
            start + 64 <= usize::MAX,
        ensures
            match localized_text(self.source(), self@, value@, start as nat) {
                Ok((bytes, end, _)) => result matches Ok(r) && r.0@ == bytes && r.1 == end,
                Err(f) => result matches Err(e) && e@ == f,
            },
    {
        let unknown: u64 = match text_under(value, "unk1") {
            None => return Err(malformed(start, "LocalizationString.unk1")),
            Some(content) => {
                let chars: Vec<char> = chars_of(content);
                match parse_unsigned(&chars, u64::MAX) {
                    Some(n) => n,
                    None => return Err(malformed(start, "LocalizationString.unk1")),
                }
            },
        };
        let content: &str = match text_under(value, "value") {
            Some(content) => content,
            None => return Err(malformed(start, "LocalizationString.value")),
        };
        let bytes: Vec<u8> = match encode_text(
            content,
            0xffff,
            start,
            "LocalizationString length",
        ) {
            Ok(bytes) => bytes,
            Err(error) => return Err(error),
        };
        let mut output: Vec<u8> = Vec::new();
        write_u64(&mut output, unknown);
        append(&mut output, &bytes);
        assert(output@ =~= binary::le_bytes(unknown as nat, 8) + bytes@);
        match length_prefixed_string(self.reader.bytes, start + 8) {
            Ok((_, end)) => Ok((output, end)),
            Err(error) => Err(error),
        }
    }

    fn encode_buffer(&self, value: &Value, start: usize) -> (result: Result<
        (Vec<u8>, usize),
        PackageError,
    >)
        requires
            start + 64 <= usize::MAX,
        ensures
            match buffer_bytes(self.source(), self@, value@, start as nat) {
                Ok((bytes, end, _)) => result matches Ok(r) && r.0@ == bytes && r.1 == end,
                Err(f) => result matches Err(e) && e@ == f,
            },
    {
        let content: &str = match text_under(value, "Bytes") {
            Some(content) => content,
            None => return Err(malformed(start, "DataBuffer Bytes")),
        };
        let bytes: Vec<u8> = match decode_base64(content) {
            Some(bytes) => bytes,
            None => return Err(malformed(start, "DataBuffer base64")),
        };
        if bytes.len() as u64 > 0xffff_ffff {
            return Err(malformed(start, "DataBuffer length"));
        }
        let mut output: Vec<u8> = Vec::new();
        write_u32(&mut output, bytes.len() as u32);
        append(&mut output, &bytes);
        assert(output@ =~= binary::le_bytes(bytes@.len(), 4) + bytes@);
        let length: u32 = match u32_at(self.reader.bytes, start) {
            Ok(length) => length,
            Err(error) => return Err(error),
        };
        if length as usize > usize::MAX - (start + 4) {
            return Err(malformed(start, "DataBuffer template length"));
        }
        Ok((output, start + 4 + length as usize))
    }

    fn encode_handle(&mut self, value: &'a Value, path: &Vec<usize>, start: usize) -> (result: Result<
        (Vec<u8>, usize),
        PackageError,
    >)
        ensures
            final(self).source() == old(self).source(),
            final(self).reader == old(self).reader,
            match handle_bytes(
                old(self).source(),
                old(self)@,
                value@,
                redpackage_pools::numbers(path@),
                start as nat,
            ) {
                Ok((bytes, end, state)) => result matches Ok(r) && r.0@ == bytes && r.1 == end
                    && final(self)@ == state,
                Err(f) => result matches Err(e) && e@ == f,
            },
    {
        let (template, end): (i32, usize) = match self.reader.read_pointer(start) {
            Ok(pointer) => pointer,
            Err(error) => return Err(error),
        };
        let pointer: i32 = match self.resolve_handle(value, path, template, start) {
            Ok(pointer) => pointer,
            Err(error) => return Err(error),
        };
        proof {
            binary::lemma_byte_ranges();
            reveal_with_fuel(binary::byte_range, 3);
        }
        let mut bytes: Vec<u8> = Vec::new();
        if self.reader.version == 2 {
            if pointer > 0x7fff {
                return Err(malformed(start, "handle pointer"));
            }
            if pointer < -0x8000 {
                return Err(malformed(start, "handle pointer"));
            }
            let raw: u16 = if pointer < 0 {
                (pointer + 0x1_0000) as u16
            } else {
                pointer as u16
            };
            write_u16(&mut bytes, raw);
            assert(bytes@ =~= binary::le_bytes(raw as nat, 2));
        } else {
            let raw: u32 = if pointer < 0 {
                (pointer as i64 + 0x1_0000_0000) as u32
            } else {
                pointer as u32
            };
            write_u32(&mut bytes, raw);
            assert(bytes@ =~= binary::le_bytes(raw as nat, 4));
        }
        Ok((bytes, end))
    }

    fn encode_reference(&mut self, value: &'a Value, start: usize) -> (result: Result<
        (Vec<u8>, usize),
        PackageError,
    >)
        requires
            start + 64 <= usize::MAX,
        ensures
            final(self).source() == old(self).source(),
            final(self).reader == old(self).reader,
            match reference_bytes(old(self).source(), old(self)@, value@, start as nat) {
                Ok((bytes, end, state)) => result matches Ok(r) && r.0@ == bytes && r.1 == end
                    && final(self)@ == state,
                Err(f) => result matches Err(e) && e@ == f,
            },
    {
        let path: &str = match text_inside(value, "DepotPath", "$value") {
            Some(path) => path,
            None => return Err(malformed(start, "resource path")),
        };
        let soft: bool = match text_under(value, "Flags") {
            Some(flags) => same_text(flags, "Soft"),
            None => false,
        };
        let numbered: bool = match text_inside(value, "DepotPath", "$storage") {
            Some(storage) => same_text(storage, "uint64"),
            None => false,
        };
        let explicit: Option<u64> = if numbered {
            let chars: Vec<char> = chars_of(path);
            parse_unsigned(&chars, u64::MAX)
        } else {
            None
        };
        let mut bytes: Vec<u8> = Vec::new();
        if same_text(path, "0") {
            write_u16(&mut bytes, 0xffff);
            assert(bytes@ =~= binary::le_bytes(0xffff, 2));
            return Ok((bytes, start + 2));
        }
        let index: usize = match self.import_index(path, explicit, soft) {
            Ok(index) => index,
            Err(error) => return Err(error),
        };
        if index > 0x7fff {
            return Err(malformed(0, "import index"));
        }
        write_u16(&mut bytes, index as u16);
        assert(bytes@ =~= binary::le_bytes(index as nat, 2));
        Ok((bytes, start + 2))
    }

    fn encode_other(&mut self, t: &[char], value: &'a Value, start: usize, limit: usize) -> (result: Result<
        (Vec<u8>, usize),
        PackageError,
    >)
        ensures
            final(self).source() == old(self).source(),
            final(self).reader == old(self).reader,
            match other_bytes(old(self)@, t@, value@, start as nat, limit as nat) {
                Ok((bytes, end, state)) => result matches Ok(r) && r.0@ == bytes && r.1 == end
                    && final(self)@ == state,
                Err(f) => result matches Err(e) && e@ == f,
            },
    {
        if limit >= 2 && limit - 2 == start {
            return match value.as_text() {
                Some(content) => self.encode_name(content, limit),
                None => Err(malformed(start, "enum JSON")),
            };
        }
        let content: &str = match value.as_text() {
            Some(content) => content,
            None => return Err(unsupported(text_of(t).as_str())),
        };
        let chars: Vec<char> = chars_of(content);
        let names: Vec<Vec<char>> = split_names(&chars);
        let ghost listed = names@.map_values(|n: Vec<char>| n@);
        if names.len() > 0xff {
            return Err(malformed(start, "bitfield count"));
        }
        let mut bytes: Vec<u8> = Vec::new();
        bytes.push(names.len() as u8);
        let ghost wanted = written_names(self@, listed, 0, seq![listed.len() as u8]);
        assert(bytes@ =~= seq![listed.len() as u8]);
        let mut i: usize = 0;
        while i < names.len()
            invariant
                i <= names@.len(),
                listed == names@.map_values(|n: Vec<char>| n@),
                self.source() == old(self).source(),
                self.reader == old(self).reader,
                other_bytes(old(self)@, t@, value@, start as nat, limit as nat) == match wanted {
                    Err(f) => Err(f),
                    Ok((bytes, after)) => Ok((bytes, limit as nat, after)),
                },
                wanted == written_names(self@, listed, i as nat, bytes@),
            decreases names@.len() - i,
        {
            assert(listed[i as int] == names@[i as int]@);
            let index: u16 = match self.name_index(text_of(&names[i]).as_str()) {
                Ok(index) => index,
                Err(error) => return Err(error),
            };
            write_u16(&mut bytes, index);
            i = i + 1;
        }
        Ok((bytes, limit))
    }

    /// Writes a value that holds no other values.
    pub fn encode_leaf(
        &mut self,
        t: &[char],
        value: &'a Value,
        path: &Vec<usize>,
        start: usize,
        limit: usize,
    ) -> (result: Result<(Vec<u8>, usize), PackageError>)
        requires
            start + 64 <= usize::MAX,
        ensures
            final(self).source() == old(self).source(),
            final(self).reader == old(self).reader,
            match written_leaf(
                old(self).source(),
                old(self)@,
                t@,
                value@,
                redpackage_pools::numbers(path@),
                start as nat,
                limit as nat,
            ) {
                Ok((bytes, end, state)) => result matches Ok(r) && r.0@ == bytes && r.1 == end
                    && final(self)@ == state,
                Err(f) => result matches Err(e) && e@ == f,
            },
    {
        if is_numeric(t) {
            return match encode_number(t, value, start) {
                Ok(bytes) => Ok((bytes, limit)),
                Err(error) => Err(error),
            };
        }
        if is_text(t, "CName") {
            return match storage_value(value, start) {
                Ok(name) => self.encode_name(name, limit),
                Err(error) => Err(error),
            };
        }
        if is_text(t, "String") || is_text(t, "CString") {
            return self.encode_plain_text(value, start);
        }
        if is_text(t, "NodeRef") {
            return match storage_value(value, start) {
                Ok(content) => self.encode_signed_text(content, start, "NodeRef length"),
                Err(error) => Err(error),
            };
        }
        if is_text(t, "TweakDBID") {
            let content: &str = match storage_value(value, start) {
                Ok(content) => content,
                Err(error) => return Err(error),
            };
            if self.reader.version == 4 {
                let mut bytes: Vec<u8> = Vec::new();
                write_u64(&mut bytes, tweak_db_id(content));
                assert(bytes@ =~= binary::le_bytes(redpackage_json::tweak_id(content@), 8));
                return Ok((bytes, limit));
            }
            return self.encode_signed_text(content, start, "TweakDBID length");
        }
        if is_text(t, "LocalizationString") {
            return self.encode_localized(value, start);
        }
        if is_text(t, "DataBuffer") {
            return self.encode_buffer(value, start);
        }
        if names_handle(t) {
            return self.encode_handle(value, path, start);
        }
        if names_reference(t) {
            return self.encode_reference(value, start);
        }
        self.encode_other(t, value, start, limit)
    }
}

/// The bits of a member, in four bytes.
pub open spec fn single_members(
    value: value::Model,
    keys: Seq<Seq<char>>,
    i: nat,
    start: nat,
    reason: Seq<char>,
    bytes: Seq<u8>,
) -> Result<Seq<u8>, redpackage::Fault>
    decreases keys.len() - i,
{
    if i >= keys.len() {
        Ok(bytes)
    } else {
        match value::member(value, keys[i as int]) {
            None => redpackage::fault(start, reason),
            Some(inner) => match redpackage_json::single_json(inner, start) {
                Err(f) => Err(f),
                Ok(bits) => single_members(
                    value,
                    keys,
                    i + 1,
                    start,
                    reason,
                    bytes + binary::le_bytes(bits, 4),
                ),
            },
        }
    }
}

/// A member in one byte.
pub open spec fn byte_member(value: value::Model, key: Seq<char>, start: nat, reason: Seq<char>) -> Result<
    u8,
    redpackage::Fault,
> {
    match value::member(value, key) {
        None => redpackage::fault(start, reason),
        Some(inner) => match redpackage_json::unsigned_json(inner, start) {
            Err(f) => Err(f),
            Ok(n) => if n > 0xff {
                redpackage::fault(start, reason)
            } else {
                Ok(n as u8)
            },
        },
    }
}

/// A member in eight bytes.
pub open spec fn long_member(value: value::Model, key: Seq<char>, start: nat) -> Result<
    Seq<u8>,
    redpackage::Fault,
> {
    match value::member(value, key) {
        None => redpackage::fault(start, "effect event"@),
        Some(inner) => match redpackage_json::unsigned_text_json(inner, start) {
            Err(f) => Err(f),
            Ok(n) => Ok(binary::le_bytes(n, 8)),
        },
    }
}

/// The bytes of a placement.
pub open spec fn placement_bytes(value: value::Model, start: nat) -> Result<
    Seq<u8>,
    redpackage::Fault,
> {
    let reason = "placement info"@;
    match (
        byte_member(value, "placementTagIndex"@, start, reason),
        byte_member(value, "relativePositionIndex"@, start, reason),
        byte_member(value, "relativeRotationIndex"@, start, reason),
        byte_member(value, "flags"@, start, reason),
    ) {
        (Ok(a), Ok(b), Ok(c), Ok(d)) => Ok(seq![a, b, c, d]),
        (Err(f), _, _, _) => Err(f),
        (_, Err(f), _, _) => Err(f),
        (_, _, Err(f), _) => Err(f),
        (_, _, _, Err(f)) => Err(f),
    }
}

/// The bytes of an event.
pub open spec fn event_bytes(value: value::Model, start: nat) -> Result<
    Seq<u8>,
    redpackage::Fault,
> {
    match (
        long_member(value, "eventRUID"@, start),
        long_member(value, "placementIndexMask"@, start),
        long_member(value, "componentIndexMask"@, start),
        byte_member(value, "flags"@, start, "effect event flags"@),
    ) {
        (Ok(a), Ok(b), Ok(c), Ok(d)) => Ok(a + b + c + seq![d, 0u8, 0u8, 0u8, 0u8, 0u8, 0u8, 0u8]),
        (Err(f), _, _, _) => Err(f),
        (_, Err(f), _, _) => Err(f),
        (_, _, Err(f), _) => Err(f),
        (_, _, _, Err(f)) => Err(f),
    }
}

/// The bytes of an item of a table of a compiled effect.
pub open spec fn effect_item_bytes(
    state: State,
    name: Seq<char>,
    value: value::Model,
    start: nat,
) -> Result<(Seq<u8>, State), redpackage::Fault> {
    if name == "placementTags"@ || name == "componentNames"@ {
        match redpackage_json::stored_value(value, start) {
            Err(f) => Err(f),
            Ok(tag) => match redpackage_pools::with_name(state, tag) {
                Err(f) => Err(f),
                Ok((index, after)) => Ok((binary::le_bytes(index, 2), after)),
            },
        }
    } else {
        let bytes = if name == "relativePositions"@ {
            single_members(
                value,
                redpackage_decoder::position_keys(),
                0,
                start,
                "Vector3"@,
                Seq::empty(),
            )
        } else if name == "relativeRotations"@ {
            single_members(
                value,
                redpackage_decoder::rotation_keys(),
                0,
                start,
                "Quaternion"@,
                Seq::empty(),
            )
        } else if name == "placementInfos"@ {
            placement_bytes(value, start)
        } else {
            event_bytes(value, start)
        };
        match bytes {
            Ok(bytes) => Ok((bytes, state)),
            Err(f) => Err(f),
        }
    }
}

/// The items of a table of a compiled effect from index `i` on, behind the
/// bytes written.
pub open spec fn effect_items_bytes(
    state: State,
    name: Seq<char>,
    items: Seq<value::Model>,
    i: nat,
    start: nat,
    bytes: Seq<u8>,
) -> Result<(Seq<u8>, State), redpackage::Fault>
    decreases items.len() - i,
{
    if i >= items.len() {
        Ok((bytes, state))
    } else {
        match effect_item_bytes(state, name, items[i as int], start) {
            Err(f) => Err(f),
            Ok((more, after)) => effect_items_bytes(
                after,
                name,
                items,
                i + 1,
                start,
                bytes + more,
            ),
        }
    }
}

/// A table of a compiled effect.
pub open spec fn written_effect(
    source: Source,
    state: State,
    name: Seq<char>,
    value: value::Model,
    start: nat,
) -> Written {
    match value {
        value::Model::Array(items) => if items.len() > 0xffff_ffff {
            redpackage::fault(start, "compiled effect count"@)
        } else {
            match effect_items_bytes(
                state,
                name,
                items,
                0,
                start,
                binary::le_bytes(items.len(), 4),
            ) {
                Err(f) => Err(f),
                Ok((bytes, after)) => match redpackage_decoder::effect_property(
                    source.package,
                    name,
                    start,
                    source.package.bytes.len(),
                ) {
                    Err(f) => Err(f),
                    Ok((_, end)) => Ok((bytes, end, after)),
                },
            }
        },
        _ => redpackage::fault(start, "compiled effect array"@),
    }
}

fn push_single(output: &mut Vec<u8>, value: &Value, key: &str, start: usize, reason: &'static str) -> (result:
    Result<(), PackageError>)
    ensures
        match value::member(value@, key@) {
            None => result matches Err(e) && e@ == redpackage::Fault::Malformed(
                start as nat,
                reason@,
            ),
            Some(inner) => match redpackage_json::single_json(inner, start as nat) {
                Err(f) => result matches Err(e) && e@ == f,
                Ok(bits) => result is Ok && final(output)@ == old(output)@ + binary::le_bytes(
                    bits,
                    4,
                ),
            },
        },
{
    match value.get(key) {
        None => Err(malformed(start, reason)),
        Some(inner) => match json_f32(inner, start) {
            Err(error) => Err(error),
            Ok(bits) => {
                write_u32(output, bits);
                Ok(())
            },
        },
    }
}

fn push_singles(
    value: &Value,
    keys: &[&str],
    start: usize,
    reason: &'static str,
    Ghost(names): Ghost<Seq<Seq<char>>>,
) -> (result: Result<Vec<u8>, PackageError>)
    requires
        keys@.len() == names.len(),
        forall|i: int| 0 <= i < names.len() ==> #[trigger] names[i] == keys@[i]@,
    ensures
        match single_members(value@, names, 0, start as nat, reason@, Seq::empty()) {
            Ok(bytes) => result matches Ok(r) && r@ == bytes,
            Err(f) => result matches Err(e) && e@ == f,
        },
{
    let ghost wanted = single_members(value@, names, 0, start as nat, reason@, Seq::empty());
    let mut output: Vec<u8> = Vec::new();
    let mut i: usize = 0;
    while i < keys.len()
        invariant
            i <= keys@.len() == names.len(),
            forall|k: int| 0 <= k < names.len() ==> #[trigger] names[k] == keys@[k]@,
            wanted == single_members(value@, names, 0, start as nat, reason@, Seq::empty()),
            wanted == single_members(value@, names, i as nat, start as nat, reason@, output@),
        decreases keys@.len() - i,
    {
        assert(names[i as int] == keys@[i as int]@);
        match push_single(&mut output, value, keys[i], start, reason) {
            Ok(_) => {},
            Err(error) => return Err(error),
        }
        i = i + 1;
    }
    Ok(output)
}

fn member_byte(value: &Value, key: &str, start: usize, reason: &'static str) -> (result: Result<
    u8,
    PackageError,
>)
    ensures
        match byte_member(value@, key@, start as nat, reason@) {
            Ok(n) => result matches Ok(r) && r == n,
            Err(f) => result matches Err(e) && e@ == f,
        },
{
    match value.get(key) {
        None => Err(malformed(start, reason)),
        Some(inner) => match json_u64(inner, start) {
            Err(error) => Err(error),
            Ok(n) => if n > 0xff {
                Err(malformed(start, reason))
            } else {
                Ok(n as u8)
            },
        },
    }
}

fn push_long(output: &mut Vec<u8>, value: &Value, key: &str, start: usize) -> (result: Result<
    (),
    PackageError,
>)
    ensures
        match long_member(value@, key@, start as nat) {
            Ok(bytes) => result is Ok && final(output)@ == old(output)@ + bytes,
            Err(f) => result matches Err(e) && e@ == f,
        },
{
    match value.get(key) {
        None => Err(malformed(start, "effect event")),
        Some(inner) => match json_string_u64(inner, start) {
            Err(error) => Err(error),
            Ok(n) => {
                write_u64(output, n);
                Ok(())
            },
        },
    }
}

fn encode_placement(value: &Value, start: usize) -> (result: Result<Vec<u8>, PackageError>)
    ensures
        match placement_bytes(value@, start as nat) {
            Ok(bytes) => result matches Ok(r) && r@ == bytes,
            Err(f) => result matches Err(e) && e@ == f,
        },
{
    let a: u8 = match member_byte(value, "placementTagIndex", start, "placement info") {
        Ok(n) => n,
        Err(error) => return Err(error),
    };
    let b: u8 = match member_byte(value, "relativePositionIndex", start, "placement info") {
        Ok(n) => n,
        Err(error) => return Err(error),
    };
    let c: u8 = match member_byte(value, "relativeRotationIndex", start, "placement info") {
        Ok(n) => n,
        Err(error) => return Err(error),
    };
    let d: u8 = match member_byte(value, "flags", start, "placement info") {
        Ok(n) => n,
        Err(error) => return Err(error),
    };
    Ok(vec![a, b, c, d])
}

fn encode_event(value: &Value, start: usize) -> (result: Result<Vec<u8>, PackageError>)
    ensures
        match event_bytes(value@, start as nat) {
            Ok(bytes) => result matches Ok(r) && r@ == bytes,
            Err(f) => result matches Err(e) && e@ == f,
        },
{
    let mut output: Vec<u8> = Vec::new();
    match push_long(&mut output, value, "eventRUID", start) {
        Ok(_) => {},
        Err(error) => return Err(error),
    }
    match push_long(&mut output, value, "placementIndexMask", start) {
        Ok(_) => {},
        Err(error) => return Err(error),
    }
    match push_long(&mut output, value, "componentIndexMask", start) {
        Ok(_) => {},
        Err(error) => return Err(error),
    }
    let flags: u8 = match member_byte(value, "flags", start, "effect event flags") {
        Ok(n) => n,
        Err(error) => return Err(error),
    };
    let ghost longs = output@;
    let tail: Vec<u8> = vec![flags, 0u8, 0u8, 0u8, 0u8, 0u8, 0u8, 0u8];
    append(&mut output, &tail);
    assert(tail@ =~= seq![flags, 0u8, 0u8, 0u8, 0u8, 0u8, 0u8, 0u8]);
    proof {
        let a = long_member(value@, "eventRUID"@, start as nat)->Ok_0;
        let b = long_member(value@, "placementIndexMask"@, start as nat)->Ok_0;
        let c = long_member(value@, "componentIndexMask"@, start as nat)->Ok_0;
        assert(longs =~= a + b + c);
        assert(output@ =~= a + b + c + tail@);
    }
    Ok(output)
}

impl<'a> Encoder<'a> {
    fn encode_effect_item(&mut self, name: &[char], value: &Value, start: usize) -> (result: Result<
        Vec<u8>,
        PackageError,
    >)
        ensures
            final(self).source() == old(self).source(),
            final(self).reader == old(self).reader,
            match effect_item_bytes(old(self)@, name@, value@, start as nat) {
                Ok((bytes, state)) => result matches Ok(r) && r@ == bytes && final(self)@ == state,
                Err(f) => result matches Err(e) && e@ == f,
            },
    {
        if is_text(name, "placementTags") || is_text(name, "componentNames") {
            let tag: &str = match storage_value(value, start) {
                Ok(tag) => tag,
                Err(error) => return Err(error),
            };
            let index: u16 = match self.name_index(tag) {
                Ok(index) => index,
                Err(error) => return Err(error),
            };
            let mut bytes: Vec<u8> = Vec::new();
            write_u16(&mut bytes, index);
            assert(bytes@ =~= binary::le_bytes(index as nat, 2));
            return Ok(bytes);
        }
        if is_text(name, "relativePositions") {
            return push_singles(
                value,
                &["X", "Y", "Z"],
                start,
                "Vector3",
                Ghost(redpackage_decoder::position_keys()),
            );
        }
        if is_text(name, "relativeRotations") {
            return push_singles(
                value,
                &["i", "j", "k", "r"],
                start,
                "Quaternion",
                Ghost(redpackage_decoder::rotation_keys()),
            );
        }
        if is_text(name, "placementInfos") {
            encode_placement(value, start)
        } else {
            encode_event(value, start)
        }
    }

    /// Writes a table of a compiled effect.
    pub fn encode_compiled_effect_property(&mut self, value: &Value, name: &[char], start: usize) -> (result:
        Result<(Vec<u8>, usize), PackageError>)
        ensures
            final(self).source() == old(self).source(),
            final(self).reader == old(self).reader,
            match written_effect(
                old(self).source(),
                old(self)@,
                name@,
                value@,
                start as nat,
            ) {
                Ok((bytes, end, state)) => result matches Ok(r) && r.0@ == bytes && r.1 == end
                    && final(self)@ == state,
                Err(f) => result matches Err(e) && e@ == f,
            },
    {
        let items: &Vec<Value> = match value {
            Value::Array(items) => items,
            _ => return Err(malformed(start, "compiled effect array")),
        };
        let ghost all = value::models(items@);
        proof {
            value::lemma_models(items@);
        }
        if items.len() as u64 > 0xffff_ffff {
            return Err(malformed(start, "compiled effect count"));
        }
        let mut output: Vec<u8> = Vec::new();
        write_u32(&mut output, items.len() as u32);
        assert(output@ =~= binary::le_bytes(all.len(), 4));
        let ghost wanted = effect_items_bytes(self@, name@, all, 0, start as nat, output@);
        let mut i: usize = 0;
        while i < items.len()
            invariant
                i <= items@.len(),
                all == value::models(items@),
                all.len() == items@.len(),
                all.len() <= 0xffff_ffff,
                value@ == value::Model::Array(all),
                forall|k: int|
                    0 <= k < items@.len() ==> #[trigger] all[k] == value::model(items@[k]),
                self.source() == old(self).source(),
                self.reader == old(self).reader,
                wanted == effect_items_bytes(
                    old(self)@,
                    name@,
                    all,
                    0,
                    start as nat,
                    binary::le_bytes(all.len(), 4),
                ),
                wanted == effect_items_bytes(
                    self@,
                    name@,
                    all,
                    i as nat,
                    start as nat,
                    output@,
                ),
            decreases items@.len() - i,
        {
            assert(all[i as int] == value::model(items@[i as int]));
            let bytes: Vec<u8> = match self.encode_effect_item(name, &items[i], start) {
                Ok(bytes) => bytes,
                Err(error) => return Err(error),
            };
            append(&mut output, &bytes);
            i = i + 1;
        }
        let size: usize = self.reader.bytes.len();
        match self.reader.read_compiled_effect_property(name, start, size) {
            Ok((_, end)) => Ok((output, end)),
            Err(error) => Err(error),
        }
    }
}

} // verus!
