//! What the values of documents say, as the bytes of packages.

use crate::binary;
use crate::binary::{write_u16, write_u32, write_u64};
use crate::localization_writer;
use crate::localization_writer::crc32;
use crate::number_text;
use crate::number_text::{parse_signed, parse_unsigned};
use crate::red_types::is_text;
use crate::redpackage;
use crate::redpackage::{malformed, PackageError};
use crate::redpackage_reader;
use crate::text::chars_of;
use crate::value;
use crate::value::Value;
use vstd::prelude::*;
use vstd::utf8;

verus! {

/// A text that is stored as such or under a key.
pub open spec fn stored_value(value: value::Model, offset: nat) -> Result<
    Seq<char>,
    redpackage::Fault,
> {
    let held = match value::member(value, "$value"@) {
        Some(inner) => value::text_of(inner),
        None => None,
    };
    match held {
        Some(content) => Ok(content),
        None => match value::text_of(value) {
            Some(content) => Ok(content),
            None => redpackage::fault(offset, "stored string"@),
        },
    }
}

/// Reads a text that is stored as such or under a key.
pub fn storage_value<'a>(value: &'a Value, offset: usize) -> (result: Result<
    &'a str,
    PackageError,
>)
    ensures
        match stored_value(value@, offset as nat) {
            Ok(content) => result matches Ok(r) && r@ == content,
            Err(f) => result matches Err(e) && e@ == f,
        },
{
    if let Some(inner) = value.get("$value") {
        if let Some(content) = inner.as_text() {
            return Ok(content);
        }
    }
    match value.as_text() {
        Some(content) => Ok(content),
        None => Err(malformed(offset, "stored string")),
    }
}

/// What a value says as a signed number: itself, or one for true.
pub open spec fn signed_json(value: value::Model, offset: nat) -> Result<int, redpackage::Fault> {
    match value {
        value::Model::Bool(truth) => Ok(
            if truth {
                1
            } else {
                0
            },
        ),
        _ => match value::integer_of(value) {
            Some(n) if i64::MIN <= n <= i64::MAX => Ok(n as int),
            _ => redpackage::fault(offset, "signed integer JSON"@),
        },
    }
}

/// What a value says as an unsigned number: itself, or one for true.
pub open spec fn unsigned_json(value: value::Model, offset: nat) -> Result<nat, redpackage::Fault> {
    match value {
        value::Model::Bool(truth) => Ok(
            if truth {
                1
            } else {
                0
            },
        ),
        _ => match value::integer_of(value) {
            Some(n) if 0 <= n <= u64::MAX => Ok(n as nat),
            _ => redpackage::fault(offset, "unsigned integer JSON"@),
        },
    }
}

/// Reads a signed number.
pub fn json_i64(value: &Value, offset: usize) -> (result: Result<i64, PackageError>)
    ensures
        match signed_json(value@, offset as nat) {
            Ok(n) => result matches Ok(r) && r == n,
            Err(f) => result matches Err(e) && e@ == f,
        },
{
    if let Value::Bool(truth) = value {
        return Ok(
            if *truth {
                1
            } else {
                0
            },
        );
    }
    match value.as_integer() {
        Some(n) => if i64::MIN as i128 <= n && n <= i64::MAX as i128 {
            Ok(n as i64)
        } else {
            Err(malformed(offset, "signed integer JSON"))
        },
        None => Err(malformed(offset, "signed integer JSON")),
    }
}

/// Reads an unsigned number.
pub fn json_u64(value: &Value, offset: usize) -> (result: Result<u64, PackageError>)
    ensures
        match unsigned_json(value@, offset as nat) {
            Ok(n) => result matches Ok(r) && r == n,
            Err(f) => result matches Err(e) && e@ == f,
        },
{
    if let Value::Bool(truth) = value {
        return Ok(
            if *truth {
                1
            } else {
                0
            },
        );
    }
    match value.as_integer() {
        Some(n) => if 0 <= n && n <= u64::MAX as i128 {
            Ok(n as u64)
        } else {
            Err(malformed(offset, "unsigned integer JSON"))
        },
        None => Err(malformed(offset, "unsigned integer JSON")),
    }
}

/// A signed number in a text.
pub open spec fn signed_text_json(value: value::Model, offset: nat) -> Result<
    int,
    redpackage::Fault,
> {
    match value::text_of(value) {
        None => redpackage::fault(offset, "signed integer string"@),
        Some(content) => match number_text::signed_value(content) {
            Some(n) => Ok(n),
            None => redpackage::fault(offset, "signed integer string"@),
        },
    }
}

/// An unsigned number in a text.
pub open spec fn unsigned_text_json(value: value::Model, offset: nat) -> Result<
    nat,
    redpackage::Fault,
> {
    match value::text_of(value) {
        None => redpackage::fault(offset, "unsigned integer string"@),
        Some(content) => match number_text::unsigned_value(content, u64::MAX as nat) {
            Some(n) => Ok(n),
            None => redpackage::fault(offset, "unsigned integer string"@),
        },
    }
}

/// Reads a signed number out of a text.
pub fn json_string_i64(value: &Value, offset: usize) -> (result: Result<i64, PackageError>)
    ensures
        match signed_text_json(value@, offset as nat) {
            Ok(n) => result matches Ok(r) && r == n,
            Err(f) => result matches Err(e) && e@ == f,
        },
{
    match value.as_text() {
        None => Err(malformed(offset, "signed integer string")),
        Some(content) => {
            let chars: Vec<char> = chars_of(content);
            match parse_signed(&chars) {
                Some(n) => Ok(n),
                None => Err(malformed(offset, "signed integer string")),
            }
        },
    }
}

/// Reads an unsigned number out of a text.
pub fn json_string_u64(value: &Value, offset: usize) -> (result: Result<u64, PackageError>)
    ensures
        match unsigned_text_json(value@, offset as nat) {
            Ok(n) => result matches Ok(r) && r == n,
            Err(f) => result matches Err(e) && e@ == f,
        },
{
    match value.as_text() {
        None => Err(malformed(offset, "unsigned integer string")),
        Some(content) => {
            let chars: Vec<char> = chars_of(content);
            match parse_unsigned(&chars, u64::MAX) {
                Some(n) => Ok(n),
                None => Err(malformed(offset, "unsigned integer string")),
            }
        },
    }
}

/// The bits of a float of single precision.
pub open spec fn single_json(value: value::Model, offset: nat) -> Result<nat, redpackage::Fault> {
    match value {
        value::Model::Number(number) => match number.single {
            Some(bits) => Ok(bits as nat),
            None => redpackage::fault(offset, "Float JSON"@),
        },
        _ => redpackage::fault(offset, "Float JSON"@),
    }
}

/// The bits of a float of double precision.
pub open spec fn double_json(value: value::Model, offset: nat) -> Result<nat, redpackage::Fault> {
    match value {
        value::Model::Number(number) => match number.double {
            Some(bits) => Ok(bits as nat),
            None => redpackage::fault(offset, "Double JSON"@),
        },
        _ => redpackage::fault(offset, "Double JSON"@),
    }
}

/// Reads the bits of a float of single precision.
pub fn json_f32(value: &Value, offset: usize) -> (result: Result<u32, PackageError>)
    ensures
        match single_json(value@, offset as nat) {
            Ok(n) => result matches Ok(r) && r == n,
            Err(f) => result matches Err(e) && e@ == f,
        },
{
    match value {
        Value::Number(number) => match number.single {
            Some(bits) => Ok(bits),
            None => Err(malformed(offset, "Float JSON")),
        },
        _ => Err(malformed(offset, "Float JSON")),
    }
}

/// Reads the bits of a float of double precision.
pub fn json_f64(value: &Value, offset: usize) -> (result: Result<u64, PackageError>)
    ensures
        match double_json(value@, offset as nat) {
            Ok(n) => result matches Ok(r) && r == n,
            Err(f) => result matches Err(e) && e@ == f,
        },
{
    match value {
        Value::Number(number) => match number.double {
            Some(bits) => Ok(bits),
            None => Err(malformed(offset, "Double JSON")),
        },
        _ => Err(malformed(offset, "Double JSON")),
    }
}

/// The identity of a record: the number that a text says, or else the checksum
/// of the text with its length above it.
pub open spec fn tweak_id(content: Seq<char>) -> nat {
    match number_text::unsigned_value(content, u64::MAX as nat) {
        Some(n) => n,
        None => {
            let bytes = utf8::encode_utf8(content);
            localization_writer::crc32_of(bytes) as nat + (bytes.len() % 0x1_0000_0000)
                * 0x1_0000_0000
        },
    }
}

/// Makes the identity of a record.
pub fn tweak_db_id(content: &str) -> (result: u64)
    ensures
        result == tweak_id(content@),
{
    let chars: Vec<char> = chars_of(content);
    match parse_unsigned(&chars, u64::MAX) {
        Some(n) => n,
        None => {
            let bytes: &[u8] = content.as_bytes();
            let length: u64 = bytes.len() as u64 % 0x1_0000_0000;
            crc32(bytes) as u64 + length * 0x1_0000_0000
        },
    }
}

/// A signed number as an unsigned one of a width.
pub open spec fn wrapped(n: int, width: nat) -> nat {
    if n < 0 {
        (n + binary::byte_range(width)) as nat
    } else {
        n as nat
    }
}

/// A number in bytes, if it is in a range.
pub open spec fn ranged(
    n: Result<int, redpackage::Fault>,
    low: int,
    high: int,
    width: nat,
    offset: nat,
    reason: Seq<char>,
) -> Result<Seq<u8>, redpackage::Fault> {
    match n {
        Err(f) => Err(f),
        Ok(n) => if low <= n <= high {
            Ok(binary::le_bytes(wrapped(n, width), width))
        } else {
            redpackage::fault(offset, reason)
        },
    }
}

/// An unsigned number as any.
pub open spec fn widened(n: Result<nat, redpackage::Fault>) -> Result<int, redpackage::Fault> {
    match n {
        Ok(n) => Ok(n as int),
        Err(f) => Err(f),
    }
}

/// The bytes of a number of a type.
pub open spec fn number_bytes(t: Seq<char>, value: value::Model, start: nat) -> Result<
    Seq<u8>,
    redpackage::Fault,
> {
    if t == "Bool"@ || t == "Uint8"@ {
        ranged(widened(unsigned_json(value, start)), 0, 0xff, 1, start, "Uint8 range"@)
    } else if t == "Int8"@ {
        ranged(signed_json(value, start), -0x80, 0x7f, 1, start, "Int8 range"@)
    } else if t == "Int16"@ {
        ranged(signed_json(value, start), -0x8000, 0x7fff, 2, start, "Int16 range"@)
    } else if t == "Uint16"@ {
        ranged(widened(unsigned_json(value, start)), 0, 0xffff, 2, start, "Uint16 range"@)
    } else if t == "Int32"@ {
        ranged(
            signed_json(value, start),
            -0x8000_0000,
            0x7fff_ffff,
            4,
            start,
            "Int32 range"@,
        )
    } else if t == "Uint32"@ {
        ranged(widened(unsigned_json(value, start)), 0, 0xffff_ffff, 4, start, "Uint32 range"@)
    } else if t == "Int64"@ {
        match signed_text_json(value, start) {
            Ok(n) => Ok(binary::le_bytes(wrapped(n, 8), 8)),
            Err(f) => Err(f),
        }
    } else if t == "Uint64"@ || t == "CRUID"@ || t == "CDateTime"@ {
        match unsigned_text_json(value, start) {
            Ok(n) => Ok(binary::le_bytes(n, 8)),
            Err(f) => Err(f),
        }
    } else if t == "Float"@ {
        match single_json(value, start) {
            Ok(n) => Ok(binary::le_bytes(n, 4)),
            Err(f) => Err(f),
        }
    } else {
        match double_json(value, start) {
            Ok(n) => Ok(binary::le_bytes(n, 8)),
            Err(f) => Err(f),
        }
    }
}

fn bytes_of(n: u64, width: usize) -> (result: Vec<u8>)
    requires
        width == 1 || width == 2 || width == 4 || width == 8,
        n < binary::byte_range(width as nat),
    ensures
        result@ == binary::le_bytes(n as nat, width as nat),
{
    let mut bytes: Vec<u8> = Vec::new();
    proof {
        binary::lemma_byte_ranges();
        reveal_with_fuel(binary::byte_range, 3);
    }
    if width == 1 {
        bytes.push(n as u8);
        proof {
            reveal_with_fuel(binary::le_bytes, 2);
            assert(bytes@ =~= binary::le_bytes(n as nat, 1));
        }
    } else if width == 2 {
        write_u16(&mut bytes, n as u16);
        assert(bytes@ =~= binary::le_bytes(n as nat, 2));
    } else if width == 4 {
        write_u32(&mut bytes, n as u32);
        assert(bytes@ =~= binary::le_bytes(n as nat, 4));
    } else {
        write_u64(&mut bytes, n);
        assert(bytes@ =~= binary::le_bytes(n as nat, 8));
    }
    bytes
}

fn signed_bytes(n: i64, low: i64, high: i64, width: usize, offset: usize, reason: &'static str) -> (result:
    Result<Vec<u8>, PackageError>)
    requires
        width == 1 && low == -0x80 && high == 0x7f || width == 2 && low == -0x8000 && high
            == 0x7fff || width == 4 && low == -0x8000_0000 && high == 0x7fff_ffff,
    ensures
        match ranged(
            Ok(n as int),
            low as int,
            high as int,
            width as nat,
            offset as nat,
            reason@,
        ) {
            Ok(bytes) => result matches Ok(r) && r@ == bytes,
            Err(f) => result matches Err(e) && e@ == f,
        },
{
    if n < low || n > high {
        return Err(malformed(offset, reason));
    }
    proof {
        binary::lemma_byte_ranges();
        reveal_with_fuel(binary::byte_range, 3);
    }
    let span: i64 = if width == 1 {
        0x100
    } else if width == 2 {
        0x1_0000
    } else {
        0x1_0000_0000
    };
    let raw: u64 = if n < 0 {
        (n + span) as u64
    } else {
        n as u64
    };
    Ok(bytes_of(raw, width))
}

fn unsigned_bytes(n: u64, high: u64, width: usize, offset: usize, reason: &'static str) -> (result:
    Result<Vec<u8>, PackageError>)
    requires
        width == 1 && high == 0xff || width == 2 && high == 0xffff || width == 4 && high
            == 0xffff_ffff,
    ensures
        match ranged(Ok(n as int), 0, high as int, width as nat, offset as nat, reason@) {
            Ok(bytes) => result matches Ok(r) && r@ == bytes,
            Err(f) => result matches Err(e) && e@ == f,
        },
{
    if n > high {
        return Err(malformed(offset, reason));
    }
    proof {
        binary::lemma_byte_ranges();
        reveal_with_fuel(binary::byte_range, 3);
    }
    Ok(bytes_of(n, width))
}

/// Writes a number of a type.
pub fn encode_number(t: &[char], value: &Value, start: usize) -> (result: Result<
    Vec<u8>,
    PackageError,
>)
    requires
        redpackage_reader::numeric(t@),
    ensures
        match number_bytes(t@, value@, start as nat) {
            Ok(bytes) => result matches Ok(r) && r@ == bytes,
            Err(f) => result matches Err(e) && e@ == f,
        },
{
    proof {
        binary::lemma_byte_ranges();
    }
    if is_text(t, "Bool") || is_text(t, "Uint8") {
        match json_u64(value, start) {
            Ok(n) => unsigned_bytes(n, 0xff, 1, start, "Uint8 range"),
            Err(error) => Err(error),
        }
    } else if is_text(t, "Int8") {
        match json_i64(value, start) {
            Ok(n) => signed_bytes(n, -0x80, 0x7f, 1, start, "Int8 range"),
            Err(error) => Err(error),
        }
    } else if is_text(t, "Int16") {
        match json_i64(value, start) {
            Ok(n) => signed_bytes(n, -0x8000, 0x7fff, 2, start, "Int16 range"),
            Err(error) => Err(error),
        }
    } else if is_text(t, "Uint16") {
        match json_u64(value, start) {
            Ok(n) => unsigned_bytes(n, 0xffff, 2, start, "Uint16 range"),
            Err(error) => Err(error),
        }
    } else if is_text(t, "Int32") {
        match json_i64(value, start) {
            Ok(n) => signed_bytes(n, -0x8000_0000, 0x7fff_ffff, 4, start, "Int32 range"),
            Err(error) => Err(error),
        }
    } else if is_text(t, "Uint32") {
        match json_u64(value, start) {
            Ok(n) => unsigned_bytes(n, 0xffff_ffff, 4, start, "Uint32 range"),
            Err(error) => Err(error),
        }
    } else if is_text(t, "Int64") {
        match json_string_i64(value, start) {
            Ok(n) => {
                let raw: u64 = if n < 0 {
                    (n as i128 + 0x1_0000_0000_0000_0000) as u64
                } else {
                    n as u64
                };
                Ok(bytes_of(raw, 8))
            },
            Err(error) => Err(error),
        }
    } else if is_text(t, "Uint64") || is_text(t, "CRUID") || is_text(t, "CDateTime") {
        match json_string_u64(value, start) {
            Ok(n) => Ok(bytes_of(n, 8)),
            Err(error) => Err(error),
        }
    } else if is_text(t, "Float") {
        match json_f32(value, start) {
            Ok(n) => Ok(bytes_of(n as u64, 4)),
            Err(error) => Err(error),
        }
    } else {
        match json_f64(value, start) {
            Ok(n) => Ok(bytes_of(n, 8)),
            Err(error) => Err(error),
        }
    }
}

/// The names in a text, with a comma and a space between them.
pub open spec fn names_in(content: Seq<char>) -> Seq<Seq<char>>
    decreases content.len(),
{
    let at = comma(content);
    if at + 1 >= content.len() {
        if content.len() == 0 {
            Seq::empty()
        } else {
            seq![content]
        }
    } else {
        let rest = names_in(content.subrange(at as int + 2, content.len() as int));
        if at == 0 {
            rest
        } else {
            seq![content.subrange(0, at as int)] + rest
        }
    }
}

/// Where a comma and a space stand first, or the length of the text.
pub open spec fn comma(content: Seq<char>) -> nat
    decreases content.len(),
{
    if content.len() < 2 {
        content.len()
    } else if content[0] == ',' && content[1] == ' ' {
        0
    } else {
        1 + comma(content.drop_first())
    }
}

} // verus!
