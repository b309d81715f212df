//! The plain values of CR2W resources.

use crate::binary;
use crate::binary::{read_u16_le, read_u32_le, read_u64_le};
use crate::cr2w;
use crate::cr2w::{Cr2wBuffer, Cr2wError, Cr2wInspection};
use crate::entries;
use crate::localization;
use crate::localization::read_vlq;
use crate::number_text;
use crate::number_text::{decimal_text, signed_decimal_text};
use crate::red_types;
use crate::red_types::{hex, import_flags, is_text, names_handle, names_reference};
use crate::redpackage;
use crate::redpackage_reader;
use crate::redpackage_reader::{
    is_numeric, join_names, new_inner_buffer, new_localized, new_pointer, new_reference,
    storage_string, storage_u64, to_signed, to_signed32, to_signed8,
};
use crate::sequence::part;
use crate::text;
use crate::text::{encode_base64, from_utf16, from_utf8, push_text, text_of};
use crate::value;
use crate::value::{copy_text, set_entry, Value};
use vstd::prelude::*;
use vstd::utf8;

verus! {

/// Reports resources that cannot be decoded.
#[derive(Debug, PartialEq, Eq)]
pub enum CodecError {
    /// The tables of the resource are malformed.
    Cr2w(Cr2wError),
    /// The bytes at an offset violate the format.
    Malformed { offset: usize, reason: &'static str },
    /// A type is not supported.
    Unsupported { red_type: String },
    /// A buffer could not be decompressed.
    Buffer { index: usize },
}

/// What an error says.
pub ghost enum Fault {
    Cr2w(Cr2wError),
    Malformed(nat, Seq<char>),
    Unsupported(Seq<char>),
    Buffer(nat),
}

impl View for CodecError {
    type V = Fault;

    open spec fn view(&self) -> Fault {
        match self {
            CodecError::Cr2w(error) => Fault::Cr2w(*error),
            CodecError::Malformed { offset, reason } => Fault::Malformed(*offset as nat, reason@),
            CodecError::Unsupported { red_type } => Fault::Unsupported(red_type@),
            CodecError::Buffer { index } => Fault::Buffer(*index as nat),
        }
    }
}

/// The names of types, if they are known.
pub open spec fn optional_keys(names: Option<&Vec<String>>) -> Option<Seq<(Seq<char>, ())>> {
    match names {
        Some(names) => Some(entries::name_keys(names@)),
        None => None,
    }
}

/// Buffers that were decompressed, where that succeeded.
pub open spec fn buffer_contents(buffers: Seq<Option<Vec<u8>>>) -> Seq<Option<Seq<u8>>> {
    buffers.map_values(
        |buffer: Option<Vec<u8>>|
            match buffer {
                Some(bytes) => Some(bytes@),
                None => None,
            },
    )
}

/// What the values of a resource are read from.
pub ghost struct Resource {
    pub bytes: Seq<u8>,
    pub file: cr2w::InspectionModel,
    pub classes: Seq<(Seq<char>, ())>,
    pub enums: Option<Seq<(Seq<char>, ())>>,
    pub bitfields: Option<Seq<(Seq<char>, ())>>,
    pub unpacked: Seq<Option<Seq<u8>>>,
}

/// Reads the values of a resource. The buffers that are stored in compressed
/// form are handed in decompressed.
pub struct Decoder<'a> {
    pub bytes: &'a [u8],
    pub file: &'a Cr2wInspection,
    pub classes: &'a Vec<String>,
    pub enums: Option<&'a Vec<String>>,
    pub bitfields: Option<&'a Vec<String>>,
    pub unpacked: &'a Vec<Option<Vec<u8>>>,
}

impl<'a> View for Decoder<'a> {
    type V = Resource;

    open spec fn view(&self) -> Resource {
        Resource {
            bytes: self.bytes@,
            file: self.file@,
            classes: entries::name_keys(self.classes@),
            enums: optional_keys(self.enums),
            bitfields: optional_keys(self.bitfields),
            unpacked: buffer_contents(self.unpacked@),
        }
    }
}

/// A value that was read, and where it ends.
pub type Reading = Result<(value::Model, nat), Fault>;

/// A fault at an offset.
pub open spec fn fault<T>(offset: nat, reason: Seq<char>) -> Result<T, Fault> {
    Err(Fault::Malformed(offset, reason))
}

/// Makes an error.
pub fn malformed(offset: usize, reason: &'static str) -> (result: CodecError)
    ensures
        result@ == Fault::Malformed(offset as nat, reason@),
{
    CodecError::Malformed { offset, reason }
}

/// The byte at an offset.
pub open spec fn byte_at(bytes: Seq<u8>, at: nat) -> Result<nat, Fault> {
    if at < bytes.len() {
        Ok(bytes[at as int] as nat)
    } else {
        fault(at, "byte"@)
    }
}

/// The number of some bytes at an offset.
pub open spec fn number(bytes: Seq<u8>, at: nat, count: nat) -> Result<nat, Fault> {
    match binary::number_at(bytes, at, count) {
        Some(value) => Ok(value),
        None => fault(at, "integer bounds"@),
    }
}

/// Reads a byte.
pub fn byte(bytes: &[u8], at: usize) -> (result: Result<u8, CodecError>)
    ensures
        match byte_at(bytes@, at as nat) {
            Ok(value) => result matches Ok(r) && r == value,
            Err(f) => result matches Err(e) && e@ == f,
        },
        result is Ok ==> at < bytes@.len(),
{
    if at < bytes.len() {
        Ok(bytes[at])
    } else {
        Err(malformed(at, "byte"))
    }
}

/// Reads a number of 16 bits.
pub fn u16_at(bytes: &[u8], at: usize) -> (result: Result<u16, CodecError>)
    ensures
        match number(bytes@, at as nat, 2) {
            Ok(value) => result matches Ok(r) && r == value,
            Err(f) => result matches Err(e) && e@ == f,
        },
        result is Ok ==> at + 2 <= bytes@.len(),
{
    match read_u16_le(bytes, at) {
        Some(value) => Ok(value),
        None => Err(malformed(at, "integer bounds")),
    }
}

/// Reads a number of 32 bits.
pub fn u32_at(bytes: &[u8], at: usize) -> (result: Result<u32, CodecError>)
    ensures
        match number(bytes@, at as nat, 4) {
            Ok(value) => result matches Ok(r) && r == value,
            Err(f) => result matches Err(e) && e@ == f,
        },
        result is Ok ==> at + 4 <= bytes@.len(),
{
    match read_u32_le(bytes, at) {
        Some(value) => Ok(value),
        None => Err(malformed(at, "integer bounds")),
    }
}

/// Reads a number of 64 bits.
pub fn u64_at(bytes: &[u8], at: usize) -> (result: Result<u64, CodecError>)
    ensures
        match number(bytes@, at as nat, 8) {
            Ok(value) => result matches Ok(r) && r == value,
            Err(f) => result matches Err(e) && e@ == f,
        },
        result is Ok ==> at + 8 <= bytes@.len(),
{
    match read_u64_le(bytes, at) {
        Some(value) => Ok(value),
        None => Err(malformed(at, "integer bounds")),
    }
}

/// The words of bytes.
pub open spec fn words(bytes: Seq<u8>) -> Seq<u16> {
    Seq::new(bytes.len() / 2, |i: int| (bytes[2 * i] + 256 * bytes[2 * i + 1]) as u16)
}

/// A string behind its length: in UTF-8 under a negative length, else in
/// UTF-16.
pub open spec fn string_at(bytes: Seq<u8>, start: nat) -> Result<(Seq<char>, nat), Fault> {
    if start >= bytes.len() {
        fault(start, "byte"@)
    } else {
        match localization::prefixed_length(bytes.subrange(start as int, bytes.len() as int)) {
            Err(_) => fault(bytes.len(), "byte"@),
            Ok((narrow, length, next)) => {
                let cursor = start + next;
                let size = if narrow {
                    length
                } else {
                    2 * length
                };
                if size > usize::MAX {
                    fault(start, "string length"@)
                } else if cursor + size > bytes.len() {
                    fault(cursor, "string bounds"@)
                } else {
                    let content = bytes.subrange(cursor as int, (cursor + size) as int);
                    if narrow {
                        if utf8::valid_utf8(content) {
                            Ok((utf8::decode_utf8(content), cursor + size))
                        } else {
                            fault(cursor, "UTF-8"@)
                        }
                    } else {
                        match text::utf16_text(words(content)) {
                            Some(content) => Ok((content, cursor + size)),
                            None => fault(cursor, "UTF-16"@),
                        }
                    }
                }
            },
        }
    }
}

/// The rest of a count of at most `left` more bytes.
pub open spec fn count_rest(bytes: Seq<u8>, at: nat, left: nat, start: nat) -> Result<
    (nat, nat),
    Fault,
>
    decreases left,
{
    if at >= bytes.len() {
        fault(at, "byte"@)
    } else {
        let low = bytes[at as int] as nat % 128;
        if bytes[at as int] < 0x80 {
            Ok((low, at + 1))
        } else if left == 0 {
            fault(start, "VLQ count"@)
        } else {
            match count_rest(bytes, at + 1, (left - 1) as nat, start) {
                Err(f) => Err(f),
                Ok((rest, end)) => Ok((low + 128 * rest, end)),
            }
        }
    }
}

/// A count, and where it ends.
pub open spec fn count_at(bytes: Seq<u8>, start: nat) -> Result<(nat, nat), Fault> {
    match byte_at(bytes, start) {
        Err(f) => Err(f),
        Ok(first) => if first >= 0x80 {
            fault(start, "negative count"@)
        } else if first < 0x40 {
            Ok((first, start + 1))
        } else {
            match count_rest(bytes, start + 1, 3, start) {
                Err(f) => Err(f),
                Ok((rest, end)) => Ok(((first - 0x40) as nat + 64 * rest, end)),
            }
        },
    }
}

fn read_words(bytes: &[u8]) -> (result: Vec<u16>)
    ensures
        result@ == words(bytes@),
{
    let mut list: Vec<u16> = Vec::new();
    let size: usize = bytes.len();
    let n: usize = size / 2;
    let mut i: usize = 0;
    while i < n
        invariant
            size == bytes@.len(),
            n == size / 2,
            i <= n,
            list@ =~= words(bytes@).subrange(0, i as int),
        decreases n - i,
    {
        list.push(bytes[2 * i] as u16 + 256 * bytes[2 * i + 1] as u16);
        i = i + 1;
    }
    assert(list@ =~= words(bytes@));
    list
}

/// Reads a string behind its length.
pub fn read_string(bytes: &[u8], start: usize) -> (result: Result<(String, usize), CodecError>)
    ensures
        match string_at(bytes@, start as nat) {
            Ok((content, end)) => result matches Ok(r) && r.0@ == content && r.1 == end && start
                < end <= bytes@.len(),
            Err(f) => result matches Err(e) && e@ == f,
        },
{
    if start >= bytes.len() {
        return Err(malformed(start, "byte"));
    }
    let tail: &[u8] = part(bytes, start, bytes.len());
    let (narrow, length, next): (bool, usize, usize) = match read_vlq(tail) {
        Ok(found) => found,
        Err(_) => return Err(malformed(bytes.len(), "byte")),
    };
    let cursor: usize = start + next;
    if !narrow && length > usize::MAX / 2 {
        return Err(malformed(start, "string length"));
    }
    let size: usize = if narrow {
        length
    } else {
        2 * length
    };
    if size > bytes.len() - cursor {
        return Err(malformed(cursor, "string bounds"));
    }
    let content: &[u8] = part(bytes, cursor, cursor + size);
    if narrow {
        match from_utf8(content) {
            Some(content) => Ok((content, cursor + size)),
            None => Err(malformed(cursor, "UTF-8")),
        }
    } else {
        let list: Vec<u16> = read_words(content);
        match from_utf16(&list) {
            Some(content) => Ok((content, cursor + size)),
            None => Err(malformed(cursor, "UTF-16")),
        }
    }
}

fn read_count_rest(bytes: &[u8], at: usize, left: usize, start: usize) -> (result: Result<
    (u64, usize),
    CodecError,
>)
    requires
        left <= 3,
    ensures
        match count_rest(bytes@, at as nat, left as nat, start as nat) {
            Ok((value, end)) => result matches Ok(r) && r.0 == value && r.1 == end && at < end
                <= bytes@.len() && (left == 3 ==> value < 0x1000_0000) && (left == 2 ==> value
                < 0x20_0000) && (left == 1 ==> value < 0x4000) && (left == 0 ==> value < 0x80),
            Err(f) => result matches Err(e) && e@ == f,
        },
    decreases left,
{
    if at >= bytes.len() {
        return Err(malformed(at, "byte"));
    }
    let low: u64 = (bytes[at] % 128) as u64;
    if bytes[at] < 0x80 {
        return Ok((low, at + 1));
    }
    if left == 0 {
        return Err(malformed(start, "VLQ count"));
    }
    match read_count_rest(bytes, at + 1, left - 1, start) {
        Ok((rest, end)) => Ok((low + 128 * rest, end)),
        Err(error) => Err(error),
    }
}

/// Reads a count.
pub fn vlq(bytes: &[u8], start: usize) -> (result: Result<(u64, usize), CodecError>)
    ensures
        match count_at(bytes@, start as nat) {
            Ok((value, end)) => result matches Ok(r) && r.0 == value && r.1 == end && start < end
                <= bytes@.len(),
            Err(f) => result matches Err(e) && e@ == f,
        },
{
    let size: usize = bytes.len();
    let first: u8 = match byte(bytes, start) {
        Ok(first) => first,
        Err(error) => return Err(error),
    };
    if first >= 0x80 {
        return Err(malformed(start, "negative count"));
    }
    if first < 0x40 {
        return Ok((first as u64, start + 1));
    }
    match read_count_rest(bytes, start + 1, 3, start) {
        Ok((rest, end)) => Ok(((first - 0x40) as u64 + 64 * rest, end)),
        Err(error) => Err(error),
    }
}

/// What a number that was read makes.
pub open spec fn exact(
    number: Result<nat, Fault>,
    make: spec_fn(nat) -> value::Model,
    end: nat,
) -> Reading {
    match number {
        Ok(number) => Ok((make(number), end)),
        Err(f) => Err(f),
    }
}

/// The name of an index.
pub open spec fn name_of(r: Resource, index: nat, offset: nat) -> Result<Seq<char>, Fault> {
    if index < r.file.names.len() {
        Ok(r.file.names[index as int].value)
    } else {
        fault(offset, "name index"@)
    }
}

/// The name whose index stands at an offset.
pub open spec fn name_there(r: Resource, at: nat, offset: nat) -> Result<Seq<char>, Fault> {
    match number(r.bytes, at, 2) {
        Ok(index) => name_of(r, index, offset),
        Err(f) => Err(f),
    }
}

/// Bytes as text.
pub open spec fn coded(r: Resource, from: nat, to: nat) -> Seq<char> {
    text::base64_text(r.bytes.subrange(from as int, to as int))
}

/// A stored buffer: its record, its bytes, and whether they are as stored for
/// want of another form.
pub open spec fn buffer_of(r: Resource, index: nat, offset: nat, fallback: bool) -> Result<
    (Cr2wBuffer, Seq<u8>, bool),
    Fault,
> {
    if index >= r.file.buffers.len() {
        fault(offset, "buffer index"@)
    } else {
        let buffer = r.file.buffers[index as int];
        let start = buffer.offset as nat;
        let end = start + buffer.disk_size as nat;
        if end > r.bytes.len() {
            fault(start, "buffer bounds"@)
        } else {
            let stored = r.bytes.subrange(start as int, end as int);
            if packed(stored) {
                if stored.len() < 8 {
                    fault(start, "KARK header"@)
                } else if index < r.unpacked.len() && r.unpacked[index as int] is Some {
                    Ok((buffer, r.unpacked[index as int]->0, false))
                } else if fallback {
                    Ok((buffer, stored, true))
                } else {
                    Err(Fault::Buffer(index))
                }
            } else {
                Ok((buffer, stored, false))
            }
        }
    }
}

/// Bytes that are stored in compressed form.
pub open spec fn packed(stored: Seq<u8>) -> bool {
    stored.len() >= 4 && stored[0] == 75 && stored[1] == 65 && stored[2] == 82 && stored[3] == 75
}

/// A buffer of the table.
pub open spec fn table_buffer(r: Resource, index: nat, offset: nat) -> Result<value::Model, Fault> {
    match buffer_of(r, index, offset, true) {
        Err(f) => Err(f),
        Ok((buffer, bytes, stored)) => {
            let head = entries::put(
                entries::put(
                    Seq::empty(),
                    "BufferId"@,
                    value::Model::Text(number_text::decimal(index)),
                ),
                "Flags"@,
                value::integer(buffer.flags as int),
            );
            let content = value::Model::Text(text::base64_text(bytes));
            if stored {
                Ok(
                    value::Model::Object(
                        entries::put(
                            entries::put(
                                entries::put(
                                    entries::put(
                                        head,
                                        "Compression"@,
                                        value::Model::Text("KARK"@),
                                    ),
                                    "DiskSize"@,
                                    value::integer(buffer.disk_size as int),
                                ),
                                "MemorySize"@,
                                value::integer(buffer.memory_size as int),
                            ),
                            "StoredBytes"@,
                            content,
                        ),
                    ),
                )
            } else {
                Ok(value::Model::Object(entries::put(head, "Bytes"@, content)))
            }
        },
    }
}

/// A buffer: empty, of the table or in place.
pub open spec fn data_buffer(r: Resource, start: nat, end: nat) -> Reading {
    match number(r.bytes, start, 4) {
        Err(f) => Err(f),
        Ok(encoded) => if encoded == 0x8000_0000 {
            Ok((redpackage_reader::inner_buffer(""@), start + 4))
        } else if encoded > 0x8000_0000 {
            match table_buffer(r, (encoded - 0x8000_0001) as nat, start) {
                Ok(m) => Ok((m, start + 4)),
                Err(f) => Err(f),
            }
        } else if start + 4 + encoded > end {
            fault(start, "inline buffer bounds"@)
        } else {
            Ok(
                (
                    redpackage_reader::inner_buffer(coded(r, start + 4, start + 4 + encoded)),
                    start + 4 + encoded,
                ),
            )
        },
    }
}

/// A buffer that resources share.
pub open spec fn shared_buffer(r: Resource, start: nat, end: nat) -> Reading {
    match number(r.bytes, start, 4) {
        Err(f) => Err(f),
        Ok(length) => if start + 4 + length > end {
            fault(start, "shared buffer bounds"@)
        } else {
            Ok(
                (
                    value::Model::Object(
                        entries::put(
                            entries::put(Seq::empty(), "Flags"@, value::integer(0)),
                            "Bytes"@,
                            value::Model::Text(coded(r, start + 4, start + 4 + length)),
                        ),
                    ),
                    start + 4 + length,
                ),
            )
        },
    }
}

/// A type with one text.
pub open spec fn tagged(t: Seq<char>, key: Seq<char>, content: Seq<char>) -> value::Model {
    value::Model::Object(
        entries::put(
            entries::put(Seq::empty(), "$type"@, value::Model::Text(t)),
            key,
            value::Model::Text(content),
        ),
    )
}

/// A curve of several channels.
pub open spec fn channels(r: Resource, start: nat, end: nat) -> Reading {
    match number(r.bytes, start, 4) {
        Err(f) => Err(f),
        Ok(count) => match byte_at(r.bytes, start + 4) {
            Err(f) => Err(f),
            Ok(way) => match red_types::interpolation(way) {
                None => fault(start + 4, "curve interpolation type"@),
                Some(way) => match byte_at(r.bytes, start + 5) {
                    Err(f) => Err(f),
                    Ok(link) => match red_types::channel_link(link) {
                        None => fault(start + 5, "curve channel link type"@),
                        Some(link) => channel_data(r, start, end, count, way, link),
                    },
                },
            },
        },
    }
}

/// The data of a curve of several channels.
pub open spec fn channel_data(
    r: Resource,
    start: nat,
    end: nat,
    count: nat,
    way: Seq<char>,
    link: Seq<char>,
) -> Reading {
    match (number(r.bytes, start + 6, 4), number(r.bytes, start + 10, 4)) {
        (Err(f), _) => Err(f),
        (_, Err(f)) => Err(f),
        (Ok(alignment), Ok(size)) => if start + 14 + size != end {
            fault(start + 14, "multi-channel curve data bounds"@)
        } else {
            Ok(
                (
                    value::Model::Object(
                        entries::put(
                            entries::put(
                                entries::put(
                                    entries::put(
                                        entries::put(
                                            Seq::empty(),
                                            "NumChannels"@,
                                            value::integer(count as int),
                                        ),
                                        "InterpolationType"@,
                                        value::Model::Text(way),
                                    ),
                                    "LinkType"@,
                                    value::Model::Text(link),
                                ),
                                "Alignment"@,
                                value::integer(alignment as int),
                            ),
                            "Data"@,
                            value::Model::Text(coded(r, start + 14, end)),
                        ),
                    ),
                    end,
                ),
            )
        },
    }
}

/// Names up to a zero or the end, behind those found, and where they end.
pub open spec fn names_up_to(r: Resource, cursor: nat, end: nat, found: Seq<Seq<char>>) -> Result<
    (Seq<Seq<char>>, nat, bool),
    Fault,
>
    decreases end + 2 - cursor,
{
    if cursor >= end {
        Ok((found, cursor, false))
    } else {
        match number(r.bytes, cursor, 2) {
            Err(f) => Err(f),
            Ok(index) => if index == 0 {
                Ok((found, cursor + 2, true))
            } else {
                match name_of(r, index, cursor + 2) {
                    Err(f) => Err(f),
                    Ok(name) => names_up_to(r, cursor + 2, end, found.push(name)),
                }
            },
        }
    }
}

/// A bit field: names up to a zero at its end.
pub open spec fn bitfield(r: Resource, start: nat, end: nat) -> Reading {
    if (end - start) % 2 != 0 {
        fault(start, "bitfield size"@)
    } else {
        match names_up_to(r, start, end, Seq::empty()) {
            Err(f) => Err(f),
            Ok((names, cursor, closed)) => if !closed {
                fault(cursor, "bitfield terminator"@)
            } else if cursor != end {
                fault(cursor, "bitfield trailing bytes"@)
            } else if names.len() == 0 {
                Ok((value::Model::Text("0"@), end))
            } else {
                Ok((value::Model::Text(redpackage_reader::joined(names)), end))
            },
        }
    }
}

/// A value of a type that no other rule names.
pub open spec fn unnamed(r: Resource, t: Seq<char>, start: nat, size: nat) -> Reading {
    let end = start + size;
    if size == 2 {
        match name_there(r, start, start) {
            Ok(name) => Ok((value::Model::Text(name), end)),
            Err(f) => Err(f),
        }
    } else if size >= 4 && size % 2 == 0 && number(r.bytes, (end - 2) as nat, 2) == Ok::<
        nat,
        Fault,
    >(0) {
        match names_up_to(r, start, end, Seq::empty()) {
            Ok((names, _, _)) => Ok(
                (value::Model::Text(redpackage_reader::joined(names)), end),
            ),
            Err(f) => Err(f),
        }
    } else {
        Err(Fault::Unsupported(t + " ("@ + number_text::decimal(size) + " bytes)"@))
    }
}

/// A reference to an import.
pub open spec fn import_reference(r: Resource, start: nat) -> Result<value::Model, Fault> {
    match number(r.bytes, start, 2) {
        Err(f) => Err(f),
        Ok(index) => if index == 0 {
            Ok(redpackage_reader::reference("uint64"@, "0"@, "Default"@))
        } else if index > r.file.imports.len() {
            fault(start, "import index"@)
        } else {
            let import = r.file.imports[index - 1];
            Ok(
                redpackage_reader::reference(
                    "string"@,
                    import.depot_path,
                    red_types::flags_name(import.flags as nat),
                ),
            )
        },
    }
}

/// The value of a number.
pub open spec fn number_leaf(r: Resource, t: Seq<char>, start: nat, end: nat) -> Reading {
    let b = r.bytes;
    if t == "Bool"@ {
        exact(byte_at(b, start), |n: nat| value::Model::Bool(n != 0), end)
    } else if t == "Uint8"@ {
        exact(byte_at(b, start), |n: nat| value::integer(n as int), end)
    } else if t == "Int8"@ {
        exact(
            byte_at(b, start),
            |n: nat| value::integer(redpackage_reader::signed8(n)),
            end,
        )
    } else if t == "Int16"@ {
        exact(
            number(b, start, 2),
            |n: nat| value::integer(redpackage::signed16(n)),
            end,
        )
    } else if t == "Uint16"@ {
        exact(number(b, start, 2), |n: nat| value::integer(n as int), end)
    } else if t == "Int32"@ {
        exact(
            number(b, start, 4),
            |n: nat| value::integer(redpackage::signed32(n)),
            end,
        )
    } else if t == "Uint32"@ {
        exact(number(b, start, 4), |n: nat| value::integer(n as int), end)
    } else if t == "Int64"@ {
        exact(
            number(b, start, 8),
            |n: nat|
                value::Model::Text(number_text::signed_decimal(redpackage_reader::signed64(n))),
            end,
        )
    } else if t == "Uint64"@ || t == "CRUID"@ || t == "CDateTime"@ {
        exact(number(b, start, 8), |n: nat| value::Model::Text(number_text::decimal(n)), end)
    } else if t == "Float"@ {
        exact(number(b, start, 4), |n: nat| value::single(n), end)
    } else {
        exact(number(b, start, 8), |n: nat| value::double(n), end)
    }
}

/// The value of a type that is known by name.
pub open spec fn named_leaf(r: Resource, t: Seq<char>, start: nat, end: nat) -> Reading {
    if redpackage_reader::numeric(t) {
        number_leaf(r, t, start, end)
    } else if t == "CName"@ {
        match name_there(r, start, start) {
            Ok(name) => Ok((redpackage_reader::stored_text("CName"@, name), end)),
            Err(f) => Err(f),
        }
    } else if t == "String"@ {
        match string_at(r.bytes, start) {
            Ok((content, last)) => Ok((value::Model::Text(content), last)),
            Err(f) => Err(f),
        }
    } else if t == "NodeRef"@ {
        match string_at(r.bytes, start) {
            Ok((content, last)) => Ok((redpackage_reader::stored_text("NodeRef"@, content), last)),
            Err(f) => Err(f),
        }
    } else if t == "TweakDBID"@ {
        exact(
            number(r.bytes, start, 8),
            |n: nat| redpackage_reader::stored_number("TweakDBID"@, n),
            end,
        )
    } else if t == "gamedataLocKeyWrapper"@ {
        exact(
            number(r.bytes, start, 8),
            |n: nat| redpackage_reader::localized("0"@, number_text::decimal(n)),
            end,
        )
    } else if t == "LocalizationString"@ {
        match number(r.bytes, start, 8) {
            Err(f) => Err(f),
            Ok(unknown) => match string_at(r.bytes, start + 8) {
                Ok((content, last)) => Ok(
                    (redpackage_reader::localized(number_text::decimal(unknown), content), last),
                ),
                Err(f) => Err(f),
            },
        }
    } else if t == "SharedDataBuffer"@ {
        shared_buffer(r, start, end)
    } else if t == "DataBuffer"@ {
        data_buffer(r, start, end)
    } else if t == "serializationDeferredDataBuffer"@ {
        match number(r.bytes, start, 2) {
            Err(f) => Err(f),
            Ok(encoded) => if encoded == 0 {
                Ok((redpackage_reader::inner_buffer(""@), end))
            } else {
                match table_buffer(r, (encoded - 1) as nat, start) {
                    Ok(m) => Ok((m, end)),
                    Err(f) => Err(f),
                }
            },
        }
    } else {
        Ok(
            (
                tagged(
                    "CGUID"@,
                    "$bytes"@,
                    red_types::hex_digits(r.bytes.subrange(start as int, end as int)),
                ),
                end,
            ),
        )
    }
}

/// The types that are known by name.
pub open spec fn named(t: Seq<char>) -> bool {
    redpackage_reader::numeric(t) || t == "CName"@ || t == "String"@ || t == "NodeRef"@ || t
        == "TweakDBID"@ || t == "gamedataLocKeyWrapper"@ || t == "LocalizationString"@ || t
        == "SharedDataBuffer"@ || t == "DataBuffer"@ || t == "serializationDeferredDataBuffer"@
        || t == "CGUID"@
}

/// A type among those of a kind.
pub open spec fn among(kind: Option<Seq<(Seq<char>, ())>>, t: Seq<char>) -> bool {
    match kind {
        Some(names) => entries::find(names, t) is Some,
        None => false,
    }
}

/// The value of a type that holds no other values.
pub open spec fn leaf(r: Resource, t: Seq<char>, start: nat, size: nat) -> Reading {
    let end = start + size;
    if end > r.bytes.len() {
        fault(start, "value bounds"@)
    } else if named(t) {
        named_leaf(r, t, start, end)
    } else if red_types::opaque_data(t) {
        Ok((tagged(t, "$rawData"@, coded(r, start, end)), end))
    } else if text::starts_with(t, "multiChannelCurve:"@) {
        channels(r, start, end)
    } else if red_types::is_handle(t) {
        exact(
            number(r.bytes, start, 4),
            |n: nat|
                if n == 0 {
                    value::Model::Null
                } else {
                    redpackage_reader::pointer("$handle"@, n - 1)
                },
            end,
        )
    } else if red_types::is_reference(t) {
        match import_reference(r, start) {
            Ok(m) => Ok((m, end)),
            Err(f) => Err(f),
        }
    } else if among(r.enums, t) {
        if size != 2 {
            fault(start, "enum size"@)
        } else {
            match name_there(r, start, start) {
                Ok(name) => Ok((value::Model::Text(name), end)),
                Err(f) => Err(f),
            }
        }
    } else if among(r.bitfields, t) {
        bitfield(r, start, end)
    } else {
        unnamed(r, t, start, size)
    }
}

/// Tells whether a type is among those of a kind.
pub fn one_of(kind: Option<&Vec<String>>, t: &[char]) -> (result: bool)
    ensures
        result == among(optional_keys(kind), t@),
{
    match kind {
        Some(names) => entries::has_name(names, text_of(t).as_str()),
        None => false,
    }
}

/// Tells whether a type is known by name.
pub fn is_named(t: &[char]) -> (result: bool)
    ensures
        result == named(t@),
{
    is_numeric(t) || is_text(t, "CName") || is_text(t, "String") || is_text(t, "NodeRef")
        || is_text(t, "TweakDBID") || is_text(t, "gamedataLocKeyWrapper") || is_text(
        t,
        "LocalizationString",
    ) || is_text(t, "SharedDataBuffer") || is_text(t, "DataBuffer") || is_text(
        t,
        "serializationDeferredDataBuffer",
    ) || is_text(t, "CGUID")
}

/// Makes a type with one text.
pub fn new_tagged(t: &str, key: &str, content: &str) -> (result: Value)
    ensures
        result@ == tagged(t@, key@, content@),
{
    let mut fields: Vec<(String, Value)> = Vec::new();
    set_entry(&mut fields, "$type", Value::text(t));
    set_entry(&mut fields, key, Value::text(content));
    Value::Object(fields)
}

/// Tells whether bytes are stored in compressed form.
pub fn is_packed(stored: &[u8]) -> (result: bool)
    ensures
        result == packed(stored@),
{
    stored.len() >= 4 && stored[0] == 75 && stored[1] == 65 && stored[2] == 82 && stored[3] == 75
}

impl<'a> Decoder<'a> {
    /// The name of an index.
    pub fn name(&self, index: usize, offset: usize) -> (result: Result<&'a str, CodecError>)
        ensures
            match name_of(self@, index as nat, offset as nat) {
                Ok(name) => result matches Ok(r) && r@ == name,
                Err(f) => result matches Err(e) && e@ == f,
            },
    {
        if index < self.file.names.len() {
            assert(self@.file.names[index as int] == self.file.names@[index as int]@);
            Ok(self.file.names[index].value.as_str())
        } else {
            Err(malformed(offset, "name index"))
        }
    }

    /// The name whose index stands at an offset.
    pub fn name_there(&self, at: usize, offset: usize) -> (result: Result<&'a str, CodecError>)
        ensures
            match name_there(self@, at as nat, offset as nat) {
                Ok(name) => result matches Ok(r) && r@ == name,
                Err(f) => result matches Err(e) && e@ == f,
            },
            result is Ok ==> at + 2 <= self.bytes@.len(),
    {
        match u16_at(self.bytes, at) {
            Ok(index) => self.name(index as usize, offset),
            Err(error) => Err(error),
        }
    }

    /// Reads a stored buffer.
    pub fn buffer(&self, index: usize, offset: usize, fallback: bool) -> (result: Result<
        (Cr2wBuffer, &'a [u8], bool),
        CodecError,
    >)
        ensures
            match buffer_of(self@, index as nat, offset as nat, fallback) {
                Ok((buffer, bytes, stored)) => result matches Ok(r) && r.0 == buffer && r.1@
                    == bytes && r.2 == stored,
                Err(f) => result matches Err(e) && e@ == f,
            },
    {
        if index >= self.file.buffers.len() {
            return Err(malformed(offset, "buffer index"));
        }
        let buffer: Cr2wBuffer = self.file.buffers[index];
        let start: usize = buffer.offset as usize;
        let size: usize = buffer.disk_size as usize;
        if start > self.bytes.len() || size > self.bytes.len() - start {
            return Err(malformed(start, "buffer bounds"));
        }
        let stored: &'a [u8] = part(self.bytes, start, start + size);
        if !is_packed(stored) {
            return Ok((buffer, stored, false));
        }
        if stored.len() < 8 {
            return Err(malformed(start, "KARK header"));
        }
        if index < self.unpacked.len() {
            assert(self@.unpacked[index as int] == match self.unpacked@[index as int] {
                Some(bytes) => Some(bytes@),
                None => None,
            });
            if let Some(bytes) = &self.unpacked[index] {
                return Ok((buffer, bytes.as_slice(), false));
            }
        }
        if fallback {
            Ok((buffer, stored, true))
        } else {
            Err(CodecError::Buffer { index })
        }
    }

    /// Reads a buffer of the table.
    pub fn table_buffer(&self, index: usize, offset: usize) -> (result: Result<Value, CodecError>)
        ensures
            match table_buffer(self@, index as nat, offset as nat) {
                Ok(m) => result matches Ok(r) && r@ == m,
                Err(f) => result matches Err(e) && e@ == f,
            },
    {
        let (buffer, bytes, stored): (Cr2wBuffer, &[u8], bool) = match self.buffer(
            index,
            offset,
            true,
        ) {
            Ok(found) => found,
            Err(error) => return Err(error),
        };
        let mut fields: Vec<(String, Value)> = Vec::new();
        set_entry(&mut fields, "BufferId", Value::Text(decimal_text(index as u64)));
        set_entry(&mut fields, "Flags", Value::integer(buffer.flags as i128));
        let content: Value = Value::Text(encode_base64(bytes));
        if stored {
            set_entry(&mut fields, "Compression", Value::text("KARK"));
            set_entry(&mut fields, "DiskSize", Value::integer(buffer.disk_size as i128));
            set_entry(&mut fields, "MemorySize", Value::integer(buffer.memory_size as i128));
            set_entry(&mut fields, "StoredBytes", content);
        } else {
            set_entry(&mut fields, "Bytes", content);
        }
        Ok(Value::Object(fields))
    }

    fn coded(&self, from: usize, to: usize) -> (result: String)
        requires
            from <= to <= self.bytes@.len(),
        ensures
            result@ == coded(self@, from as nat, to as nat),
    {
        encode_base64(part(self.bytes, from, to))
    }

    fn data_buffer(&self, start: usize, end: usize) -> (result: Result<(Value, usize), CodecError>)
        requires
            end <= self.bytes@.len(),
        ensures
            match data_buffer(self@, start as nat, end as nat) {
                Ok((m, last)) => result matches Ok(r) && r.0@ == m && r.1 == last,
                Err(f) => result matches Err(e) && e@ == f,
            },
    {
        let size: usize = self.bytes.len();
        let encoded: u32 = match u32_at(self.bytes, start) {
            Ok(encoded) => encoded,
            Err(error) => return Err(error),
        };
        if encoded == 0x8000_0000 {
            return Ok((new_inner_buffer(""), start + 4));
        }
        if encoded > 0x8000_0000 {
            return match self.table_buffer((encoded - 0x8000_0001) as usize, start) {
                Ok(value) => Ok((value, start + 4)),
                Err(error) => Err(error),
            };
        }
        if start + 4 > end || encoded as usize > end - (start + 4) {
            return Err(malformed(start, "inline buffer bounds"));
        }
        let last: usize = start + 4 + encoded as usize;
        Ok((new_inner_buffer(self.coded(start + 4, last).as_str()), last))
    }

    fn shared_buffer(&self, start: usize, end: usize) -> (result: Result<
        (Value, usize),
        CodecError,
    >)
        requires
            end <= self.bytes@.len(),
        ensures
            match shared_buffer(self@, start as nat, end as nat) {
                Ok((m, last)) => result matches Ok(r) && r.0@ == m && r.1 == last,
                Err(f) => result matches Err(e) && e@ == f,
            },
    {
        let size: usize = self.bytes.len();
        let length: u32 = match u32_at(self.bytes, start) {
            Ok(length) => length,
            Err(error) => return Err(error),
        };
        if start + 4 > end || length as usize > end - (start + 4) {
            return Err(malformed(start, "shared buffer bounds"));
        }
        let last: usize = start + 4 + length as usize;
        let mut fields: Vec<(String, Value)> = Vec::new();
        set_entry(&mut fields, "Flags", Value::integer(0));
        set_entry(&mut fields, "Bytes", Value::Text(self.coded(start + 4, last)));
        Ok((Value::Object(fields), last))
    }

    fn read_multi_channel_curve(&self, start: usize, end: usize) -> (result: Result<
        (Value, usize),
        CodecError,
    >)
        requires
            end <= self.bytes@.len(),
        ensures
            match channels(self@, start as nat, end as nat) {
                Ok((m, last)) => result matches Ok(r) && r.0@ == m && r.1 == last,
                Err(f) => result matches Err(e) && e@ == f,
            },
    {
        let bytes: &[u8] = self.bytes;
        let size: usize = bytes.len();
        let count: u32 = match u32_at(bytes, start) {
            Ok(count) => count,
            Err(error) => return Err(error),
        };
        let way: &str = match byte(bytes, start + 4) {
            Ok(way) => match red_types::interpolation_type(way) {
                Some(way) => way,
                None => return Err(malformed(start + 4, "curve interpolation type")),
            },
            Err(error) => return Err(error),
        };
        let link: &str = match byte(bytes, start + 5) {
            Ok(link) => match red_types::channel_link_type(link) {
                Some(link) => link,
                None => return Err(malformed(start + 5, "curve channel link type")),
            },
            Err(error) => return Err(error),
        };
        let alignment: u32 = match u32_at(bytes, start + 6) {
            Ok(alignment) => alignment,
            Err(error) => return Err(error),
        };
        let data_size: u32 = match u32_at(bytes, start + 10) {
            Ok(data_size) => data_size,
            Err(error) => return Err(error),
        };
        if start + 14 > end || end - (start + 14) != data_size as usize {
            return Err(malformed(start + 14, "multi-channel curve data bounds"));
        }
        let mut fields: Vec<(String, Value)> = Vec::new();
        set_entry(&mut fields, "NumChannels", Value::integer(count as i128));
        set_entry(&mut fields, "InterpolationType", Value::text(way));
        set_entry(&mut fields, "LinkType", Value::text(link));
        set_entry(&mut fields, "Alignment", Value::integer(alignment as i128));
        set_entry(&mut fields, "Data", Value::Text(self.coded(start + 14, end)));
        Ok((Value::Object(fields), end))
    }

    fn read_names_up_to(&self, start: usize, end: usize) -> (result: Result<
        (Vec<String>, usize, bool),
        CodecError,
    >)
        requires
            end <= self.bytes@.len(),
        ensures
            match names_up_to(self@, start as nat, end as nat, Seq::empty()) {
                Ok((names, cursor, closed)) => result matches Ok(r) && redpackage::name_texts(r.0@)
                    == names && r.1 == cursor && r.2 == closed,
                Err(f) => result matches Err(e) && e@ == f,
            },
    {
        let ghost wanted = names_up_to(self@, start as nat, end as nat, Seq::empty());
        let size: usize = self.bytes.len();
        let mut names: Vec<String> = Vec::new();
        let mut cursor: usize = start;
        assert(redpackage::name_texts(names@) =~= Seq::empty());
        while cursor < end
            invariant
                size == self.bytes@.len(),
                end <= size,
                wanted == names_up_to(self@, start as nat, end as nat, Seq::empty()),
                wanted == names_up_to(
                    self@,
                    cursor as nat,
                    end as nat,
                    redpackage::name_texts(names@),
                ),
            decreases end + 2 - cursor,
        {
            let index: u16 = match u16_at(self.bytes, cursor) {
                Ok(index) => index,
                Err(error) => return Err(error),
            };
            cursor = cursor + 2;
            if index == 0 {
                return Ok((names, cursor, true));
            }
            let name: &str = match self.name(index as usize, cursor) {
                Ok(name) => name,
                Err(error) => return Err(error),
            };
            let copy: String = copy_text(name);
            assert(redpackage::name_texts(names@.push(copy)) =~= redpackage::name_texts(
                names@,
            ).push(name@));
            names.push(copy);
        }
        Ok((names, cursor, false))
    }

    fn read_bitfield(&self, start: usize, end: usize) -> (result: Result<
        (Value, usize),
        CodecError,
    >)
        requires
            start <= end <= self.bytes@.len(),
        ensures
            match bitfield(self@, start as nat, end as nat) {
                Ok((m, last)) => result matches Ok(r) && r.0@ == m && r.1 == last,
                Err(f) => result matches Err(e) && e@ == f,
            },
    {
        if (end - start) % 2 != 0 {
            return Err(malformed(start, "bitfield size"));
        }
        let (names, cursor, closed): (Vec<String>, usize, bool) = match self.read_names_up_to(
            start,
            end,
        ) {
            Ok(found) => found,
            Err(error) => return Err(error),
        };
        if !closed {
            return Err(malformed(cursor, "bitfield terminator"));
        }
        if cursor != end {
            return Err(malformed(cursor, "bitfield trailing bytes"));
        }
        if names.len() == 0 {
            return Ok((Value::text("0"), end));
        }
        Ok((Value::Text(join_names(&names)), end))
    }

    fn read_unnamed(&self, t: &[char], start: usize, size: usize) -> (result: Result<
        (Value, usize),
        CodecError,
    >)
        requires
            start + size <= self.bytes@.len(),
            self.bytes@.len() <= usize::MAX,
        ensures
            match unnamed(self@, t@, start as nat, size as nat) {
                Ok((m, last)) => result matches Ok(r) && r.0@ == m && r.1 == last,
                Err(f) => result matches Err(e) && e@ == f,
            },
    {
        let end: usize = start + size;
        if size == 2 {
            return match self.name_there(start, start) {
                Ok(name) => Ok((Value::text(name), end)),
                Err(error) => Err(error),
            };
        }
        if size >= 4 && size % 2 == 0 {
            let last: u16 = match u16_at(self.bytes, end - 2) {
                Ok(last) => last,
                Err(error) => return Err(error),
            };
            if last == 0 {
                return match self.read_names_up_to(start, end) {
                    Ok((names, _, _)) => Ok((Value::Text(join_names(&names)), end)),
                    Err(error) => Err(error),
                };
            }
        }
        let mut what: String = text_of(t);
        push_text(&mut what, " (");
        push_text(&mut what, decimal_text(size as u64).as_str());
        push_text(&mut what, " bytes)");
        Err(CodecError::Unsupported { red_type: what })
    }

    fn read_reference(&self, start: usize) -> (result: Result<Value, CodecError>)
        ensures
            match import_reference(self@, start as nat) {
                Ok(m) => result matches Ok(r) && r@ == m,
                Err(f) => result matches Err(e) && e@ == f,
            },
    {
        let index: u16 = match u16_at(self.bytes, start) {
            Ok(index) => index,
            Err(error) => return Err(error),
        };
        if index == 0 {
            return Ok(new_reference("uint64", "0", "Default"));
        }
        let at: usize = index as usize - 1;
        if at >= self.file.imports.len() {
            return Err(malformed(start, "import index"));
        }
        assert(self@.file.imports[at as int] == self.file.imports@[at as int]@);
        Ok(
            new_reference(
                "string",
                self.file.imports[at].depot_path.as_str(),
                import_flags(self.file.imports[at].flags),
            ),
        )
    }

    fn read_number(&self, t: &[char], start: usize, end: usize) -> (result: Result<
        (Value, usize),
        CodecError,
    >)
        requires
            redpackage_reader::numeric(t@),
        ensures
            match number_leaf(self@, t@, start as nat, end as nat) {
                Ok((m, last)) => result matches Ok(r) && r.0@ == m && r.1 == last,
                Err(f) => result matches Err(e) && e@ == f,
            },
    {
        let bytes: &[u8] = self.bytes;
        let value: Value = if is_text(t, "Bool") {
            match byte(bytes, start) {
                Ok(n) => Value::Bool(n != 0),
                Err(error) => return Err(error),
            }
        } else if is_text(t, "Uint8") {
            match byte(bytes, start) {
                Ok(n) => Value::integer(n as i128),
                Err(error) => return Err(error),
            }
        } else if is_text(t, "Int8") {
            match byte(bytes, start) {
                Ok(n) => Value::integer(to_signed8(n) as i128),
                Err(error) => return Err(error),
            }
        } else if is_text(t, "Int16") {
            match u16_at(bytes, start) {
                Ok(n) => Value::integer(to_signed16(n) as i128),
                Err(error) => return Err(error),
            }
        } else if is_text(t, "Uint16") {
            match u16_at(bytes, start) {
                Ok(n) => Value::integer(n as i128),
                Err(error) => return Err(error),
            }
        } else if is_text(t, "Int32") {
            match u32_at(bytes, start) {
                Ok(n) => Value::integer(to_signed32(n) as i128),
                Err(error) => return Err(error),
            }
        } else if is_text(t, "Uint32") {
            match u32_at(bytes, start) {
                Ok(n) => Value::integer(n as i128),
                Err(error) => return Err(error),
            }
        } else if is_text(t, "Int64") {
            match u64_at(bytes, start) {
                Ok(n) => Value::Text(signed_decimal_text(to_signed(n))),
                Err(error) => return Err(error),
            }
        } else if is_text(t, "Uint64") || is_text(t, "CRUID") || is_text(t, "CDateTime") {
            match u64_at(bytes, start) {
                Ok(n) => Value::Text(decimal_text(n)),
                Err(error) => return Err(error),
            }
        } else if is_text(t, "Float") {
            match u32_at(bytes, start) {
                Ok(n) => Value::single(n),
                Err(error) => return Err(error),
            }
        } else {
            match u64_at(bytes, start) {
                Ok(n) => Value::double(n),
                Err(error) => return Err(error),
            }
        };
        Ok((value, end))
    }

    fn read_named(&self, t: &[char], start: usize, end: usize) -> (result: Result<
        (Value, usize),
        CodecError,
    >)
        requires
            named(t@),
            start <= end <= self.bytes@.len(),
        ensures
            match named_leaf(self@, t@, start as nat, end as nat) {
                Ok((m, last)) => result matches Ok(r) && r.0@ == m && r.1 == last,
                Err(f) => result matches Err(e) && e@ == f,
            },
    {
        let size: usize = self.bytes.len();
        if is_numeric(t) {
            return self.read_number(t, start, end);
        }
        if is_text(t, "CName") {
            return match self.name_there(start, start) {
                Ok(name) => Ok((storage_string("CName", name), end)),
                Err(error) => Err(error),
            };
        }
        if is_text(t, "String") {
            return match read_string(self.bytes, start) {
                Ok((content, last)) => Ok((Value::Text(content), last)),
                Err(error) => Err(error),
            };
        }
        if is_text(t, "NodeRef") {
            return match read_string(self.bytes, start) {
                Ok((content, last)) => Ok((storage_string("NodeRef", content.as_str()), last)),
                Err(error) => Err(error),
            };
        }
        if is_text(t, "TweakDBID") {
            return match u64_at(self.bytes, start) {
                Ok(n) => Ok((storage_u64("TweakDBID", n), end)),
                Err(error) => Err(error),
            };
        }
        if is_text(t, "gamedataLocKeyWrapper") {
            return match u64_at(self.bytes, start) {
                Ok(n) => Ok((new_localized("0", decimal_text(n).as_str()), end)),
                Err(error) => Err(error),
            };
        }
        if is_text(t, "LocalizationString") {
            let unknown: u64 = match u64_at(self.bytes, start) {
                Ok(n) => n,
                Err(error) => return Err(error),
            };
            return match read_string(self.bytes, start + 8) {
                Ok((content, last)) => Ok(
                    (new_localized(decimal_text(unknown).as_str(), content.as_str()), last),
                ),
                Err(error) => Err(error),
            };
        }
        if is_text(t, "SharedDataBuffer") {
            return self.shared_buffer(start, end);
        }
        if is_text(t, "DataBuffer") {
            return self.data_buffer(start, end);
        }
        if is_text(t, "serializationDeferredDataBuffer") {
            let encoded: u16 = match u16_at(self.bytes, start) {
                Ok(encoded) => encoded,
                Err(error) => return Err(error),
            };
            if encoded == 0 {
                return Ok((new_inner_buffer(""), end));
            }
            return match self.table_buffer(encoded as usize - 1, start) {
                Ok(value) => Ok((value, end)),
                Err(error) => Err(error),
            };
        }
        Ok((new_tagged("CGUID", "$bytes", hex(part(self.bytes, start, end)).as_str()), end))
    }

    /// Reads a value that holds no other values.
    pub fn read_leaf(&self, t: &[char], start: usize, size: usize) -> (result: Result<
        (Value, usize),
        CodecError,
    >)
        ensures
            match leaf(self@, t@, start as nat, size as nat) {
                Ok((m, last)) => result matches Ok(r) && r.0@ == m && r.1 == last,
                Err(f) => result matches Err(e) && e@ == f,
            },
    {
        if start > self.bytes.len() || size > self.bytes.len() - start {
            return Err(malformed(start, "value bounds"));
        }
        let end: usize = start + size;
        if is_named(t) {
            return self.read_named(t, start, end);
        }
        if red_types::is_opaque_custom_data(t) {
            let content: String = self.coded(start, end);
            return Ok((new_tagged(text_of(t).as_str(), "$rawData", content.as_str()), end));
        }
        if red_types::after_prefix(t, "multiChannelCurve:").is_some() {
            return self.read_multi_channel_curve(start, end);
        }
        if names_handle(t) {
            return match u32_at(self.bytes, start) {
                Ok(n) => if n == 0 {
                    Ok((Value::Null, end))
                } else {
                    Ok((new_pointer("$handle", n as i128 - 1), end))
                },
                Err(error) => Err(error),
            };
        }
        if names_reference(t) {
            return match self.read_reference(start) {
                Ok(value) => Ok((value, end)),
                Err(error) => Err(error),
            };
        }
        if one_of(self.enums, t) {
            if size != 2 {
                return Err(malformed(start, "enum size"));
            }
            return match self.name_there(start, start) {
                Ok(name) => Ok((Value::text(name), end)),
                Err(error) => Err(error),
            };
        }
        if one_of(self.bitfields, t) {
            return self.read_bitfield(start, end);
        }
        self.read_unnamed(t, start, size)
    }
}

/// Sign of a number of 16 bits.
pub fn to_signed16(value: u16) -> (result: i16)
    ensures
        result == redpackage::signed16(value as nat),
{
    if value < 0x8000 {
        value as i16
    } else {
        (value as i32 - 0x1_0000) as i16
    }
}

} // verus!
