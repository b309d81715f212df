//! Writing localization resources over a template.

use crate::binary;
use crate::binary::{write_u16, write_u32};
use crate::cr2w;
use crate::cr2w::{inspect, name_models, Cr2wInspection, Cr2wName, NameModel};
use crate::localization;
use crate::localization::{entry_models, unsupported_layout, write_negative_vlq, EntryModel, Layout};
use crate::localization::{LocalizationError, OnScreenEntry};
use crate::sequence;
use crate::sequence::{append, part, to_vec};
use crate::text::same_text;
use vstd::prelude::*;
use vstd::utf8;

verus! {

/// The CRC-32 checksum of bytes.
pub uninterp spec fn crc32_of(bytes: Seq<u8>) -> u32;

/// Calls `crc32fast::hash`. The checksum depends on the bytes alone and is
/// named [`crc32_of`].
#[verifier::external_body]
pub(crate) fn crc32(bytes: &[u8]) -> (result: u32)
    ensures
        result == crc32_of(bytes@),
{
    crc32fast::hash(bytes)
}

// ---------------------------------------------------------------------------
// Properties
// ---------------------------------------------------------------------------

/// The first name from `i` on with this value.
pub open spec fn index_from(names: Seq<NameModel>, value: Seq<char>, i: nat) -> Option<nat>
    decreases names.len() - i,
{
    if i >= names.len() {
        None
    } else if names[i as int].value == value {
        Some(i)
    } else {
        index_from(names, value, i + 1)
    }
}

/// The index of a name, if it fits in its field.
pub open spec fn name_index(names: Seq<NameModel>, value: Seq<char>) -> Result<
    nat,
    LocalizationError,
> {
    match index_from(names, value, 0) {
        Some(index) if index <= 0xffff => Ok(index),
        _ => Err(localization::unsupported(Layout::TemplateName)),
    }
}

/// A property: its name, its type, its size and its payload.
pub open spec fn property_bytes(name: nat, red_type: nat, payload: Seq<u8>) -> Seq<u8> {
    binary::le_bytes(name, 2) + binary::le_bytes(red_type, 2) + binary::le_bytes(
        payload.len() + 4,
        4,
    ) + payload
}

/// A text as a payload.
pub open spec fn text_payload(value: Seq<char>) -> Seq<u8> {
    let coded = utf8::encode_utf8(value);
    localization::length_prefix(coded.len()) + coded
}

/// The property of a text; an empty one has none.
pub open spec fn text_property(names: Seq<NameModel>, name: Seq<char>, value: Seq<char>) -> Result<
    Seq<u8>,
    LocalizationError,
> {
    if value.len() == 0 {
        Ok(seq![])
    } else {
        match (name_index(names, name), name_index(names, "String"@)) {
            (Ok(name), Ok(red_type)) => if text_payload(value).len() + 4 > 0xffff_ffff {
                Err(LocalizationError::TooLarge)
            } else {
                Ok(property_bytes(name, red_type, text_payload(value)))
            },
            _ => Err(localization::unsupported(Layout::TemplateName)),
        }
    }
}

/// An entry: its properties between a marker and a zero name.
pub open spec fn entry_bytes(names: Seq<NameModel>, entry: EntryModel) -> Result<
    Seq<u8>,
    LocalizationError,
> {
    match text_property(names, "secondaryKey"@, entry.secondary_key) {
        Err(error) => Err(error),
        Ok(a) => match text_property(names, "femaleVariant"@, entry.female_variant) {
            Err(error) => Err(error),
            Ok(b) => match text_property(names, "maleVariant"@, entry.male_variant) {
                Err(error) => Err(error),
                Ok(c) => if entry.primary_key != "0"@ {
                    Err(localization::unsupported(Layout::NonzeroPrimaryKey))
                } else {
                    Ok(seq![0u8] + a + b + c + binary::le_bytes(0, 2))
                },
            },
        },
    }
}

/// The first `n` entries.
pub open spec fn entries_bytes(names: Seq<NameModel>, entries: Seq<EntryModel>, n: nat) -> Result<
    Seq<u8>,
    LocalizationError,
>
    decreases n,
{
    if n == 0 {
        Ok(seq![])
    } else {
        match entries_bytes(names, entries, (n - 1) as nat) {
            Err(error) => Err(error),
            Ok(before) => match entry_bytes(names, entries[n - 1]) {
                Err(error) => Err(error),
                Ok(bytes) => Ok(before + bytes),
            },
        }
    }
}

/// The object that holds the entries.
pub open spec fn object_bytes(names: Seq<NameModel>, entries: Seq<EntryModel>) -> Result<
    Seq<u8>,
    LocalizationError,
> {
    if entries.len() > 0xffff_ffff {
        Err(LocalizationError::TooLarge)
    } else {
        match entries_bytes(names, entries, entries.len()) {
            Err(error) => Err(error),
            Ok(listed) => {
                let array = binary::le_bytes(entries.len(), 4) + listed;
                match (
                    name_index(names, "entries"@),
                    name_index(names, "array:localizationPersistenceOnScreenEntry"@),
                ) {
                    (Ok(name), Ok(red_type)) => if array.len() + 4 > 0xffff_ffff {
                        Err(LocalizationError::TooLarge)
                    } else {
                        Ok(
                            seq![0u8] + property_bytes(name, red_type, array) + binary::le_bytes(
                                0,
                                2,
                            ),
                        )
                    },
                    _ => Err(localization::unsupported(Layout::TemplateName)),
                }
            },
        }
    }
}

/// A byte string with a 32-bit number written over it.
pub open spec fn patched(bytes: Seq<u8>, at: nat, value: nat) -> Seq<u8> {
    bytes.subrange(0, at as int) + binary::le_bytes(value, 4) + bytes.subrange(
        at as int + 4,
        bytes.len() as int,
    )
}

/// What the header's checksum is taken of: the header with a marker in place of
/// the checksum.
pub open spec fn checked_header(bytes: Seq<u8>) -> Seq<u8> {
    patched(bytes.subrange(0, 160), 32, 0xdead_beef)
}

/// A resource whose second export has been replaced: sizes, offsets and
/// checksums follow.
pub open spec fn refreshed(
    bytes: Seq<u8>,
    table: nat,
    chunk_size: nat,
    chunk_offset: nat,
) -> Seq<u8> {
    let sized = patched(bytes, table + 32, chunk_size);
    let placed = patched(sized, table + 36, chunk_offset);
    let ended = patched(patched(placed, 24, bytes.len()), 28, bytes.len());
    let listed = patched(
        ended,
        96,
        crc32_of(ended.subrange(table as int, table as int + 48)) as nat,
    );
    patched(listed, 32, crc32_of(checked_header(listed)) as nat)
}

/// The resource that entries are written to.
pub open spec fn written(template: Seq<u8>, entries: Seq<EntryModel>) -> Result<
    Seq<u8>,
    LocalizationError,
> {
    match cr2w::inspection(template) {
        Err(error) => Err(LocalizationError::Cr2w(error)),
        Ok(found) => if found.exports.len() != 2 {
            Err(localization::unsupported(Layout::TemplateExportCount))
        } else {
            let end = found.exports[0].data_offset as nat + found.exports[0].data_size as nat;
            let table = found.header.tables[4].offset as nat;
            match object_bytes(found.names, entries) {
                Err(error) => Err(error),
                Ok(object) => {
                    let kept = if end <= template.len() {
                        template.subrange(0, end as int)
                    } else {
                        template
                    };
                    let bytes = kept + object;
                    if bytes.len() > 0xffff_ffff || end > 0xffff_ffff {
                        Err(LocalizationError::TooLarge)
                    } else if table + 48 > bytes.len() {
                        Err(localization::unsupported(Layout::WriteOutsideTemplate))
                    } else if bytes.len() < 160 {
                        Err(localization::unsupported(Layout::TruncatedHeader))
                    } else {
                        Ok(refreshed(bytes, table, object.len(), end))
                    }
                },
            }
        },
    }
}

// ---------------------------------------------------------------------------
// Writing
// ---------------------------------------------------------------------------

fn find_name(names: &[Cr2wName], value: &str) -> (result: Result<u16, LocalizationError>)
    ensures
        match name_index(name_models(names@), value@) {
            Err(error) => result matches Err(e) && e == error,
            Ok(index) => result matches Ok(r) && r == index,
        },
{
    let ghost models = name_models(names@);
    let mut i: usize = 0;
    while i < names.len()
        invariant
            i <= names@.len(),
            models == name_models(names@),
            index_from(models, value@, 0) == index_from(models, value@, i as nat),
        decreases names@.len() - i,
    {
        assert(models[i as int] == names@[i as int]@);
        if same_text(names[i].value.as_str(), value) {
            if i <= 0xffff {
                return Ok(i as u16);
            }
            return Err(unsupported_layout(Layout::TemplateName));
        }
        i = i + 1;
    }
    Err(unsupported_layout(Layout::TemplateName))
}

fn write_property(output: &mut Vec<u8>, name: u16, red_type: u16, payload: &[u8]) -> (result: Result<
    (),
    LocalizationError,
>)
    ensures
        if payload@.len() + 4 > 0xffff_ffff {
            result matches Err(e) && e == LocalizationError::TooLarge
        } else {
            result is Ok && final(output)@ == old(output)@ + property_bytes(
                name as nat,
                red_type as nat,
                payload@,
            )
        },
{
    if payload.len() > 0xffff_ffff - 4 {
        return Err(LocalizationError::TooLarge);
    }
    let ghost start = output@;
    write_u16(output, name);
    write_u16(output, red_type);
    write_u32(output, (payload.len() + 4) as u32);
    append(output, payload);
    assert(output@ =~= start + property_bytes(name as nat, red_type as nat, payload@));
    Ok(())
}

fn write_string_property(output: &mut Vec<u8>, names: &[Cr2wName], name: &str, value: &str) -> (result:
    Result<(), LocalizationError>)
    ensures
        match text_property(name_models(names@), name@, value@) {
            Err(error) => result matches Err(e) && e == error,
            Ok(bytes) => result is Ok && final(output)@ == old(output)@ + bytes,
        },
{
    if value.is_empty() {
        assert(output@ + Seq::<u8>::empty() =~= output@);
        return Ok(());
    }
    let name_at: u16 = match find_name(names, name) {
        Ok(index) => index,
        Err(error) => return Err(error),
    };
    let type_at: u16 = match find_name(names, "String") {
        Ok(index) => index,
        Err(error) => return Err(error),
    };
    let coded: &[u8] = value.as_bytes();
    proof {
        lemma_prefix_len(coded@.len());
    }
    if coded.len() > 0xffff_ffff - 4 {
        return Err(LocalizationError::TooLarge);
    }
    let mut payload: Vec<u8> = Vec::new();
    write_negative_vlq(&mut payload, coded.len() as u32);
    append(&mut payload, coded);
    assert(payload@ =~= text_payload(value@));
    write_property(output, name_at, type_at, &payload)
}

proof fn lemma_prefix_len(value: nat)
    ensures
        localization::length_prefix(value).len() >= 1,
{
}

fn write_entry(output: &mut Vec<u8>, names: &[Cr2wName], entry: &OnScreenEntry) -> (result: Result<
    (),
    LocalizationError,
>)
    ensures
        match entry_bytes(name_models(names@), entry@) {
            Err(error) => result matches Err(e) && e == error,
            Ok(bytes) => result is Ok && final(output)@ == old(output)@ + bytes,
        },
{
    let ghost start = output@;
    output.push(0);
    match write_string_property(output, names, "secondaryKey", entry.secondary_key.as_str()) {
        Ok(()) => {},
        Err(error) => return Err(error),
    }
    match write_string_property(output, names, "femaleVariant", entry.female_variant.as_str()) {
        Ok(()) => {},
        Err(error) => return Err(error),
    }
    match write_string_property(output, names, "maleVariant", entry.male_variant.as_str()) {
        Ok(()) => {},
        Err(error) => return Err(error),
    }
    if !same_text(entry.primary_key.as_str(), "0") {
        return Err(unsupported_layout(Layout::NonzeroPrimaryKey));
    }
    write_u16(output, 0);
    proof {
        let bytes = entry_bytes(name_models(names@), entry@)->Ok_0;
        assert(output@ =~= start + bytes);
    }
    Ok(())
}

fn write_object(names: &[Cr2wName], entries: &[OnScreenEntry]) -> (result: Result<
    Vec<u8>,
    LocalizationError,
>)
    ensures
        match object_bytes(name_models(names@), entry_models(entries@)) {
            Err(error) => result matches Err(e) && e == error,
            Ok(bytes) => result matches Ok(r) && r@ == bytes,
        },
{
    let ghost models = entry_models(entries@);
    let ghost listed = name_models(names@);
    if entries.len() > 0xffff_ffff {
        return Err(LocalizationError::TooLarge);
    }
    let mut array: Vec<u8> = Vec::new();
    write_u32(&mut array, entries.len() as u32);
    let ghost start = array@;
    let mut i: usize = 0;
    assert(start + Seq::<u8>::empty() =~= start);
    while i < entries.len()
        invariant
            i <= entries@.len() <= 0xffff_ffff,
            models == entry_models(entries@),
            listed == name_models(names@),
            entries_bytes(listed, models, i as nat) matches Ok(bytes) && array@ == start + bytes,
        decreases entries@.len() - i,
    {
        assert(models[i as int] == entries@[i as int]@);
        let ghost before = entries_bytes(listed, models, i as nat)->Ok_0;
        match write_entry(&mut array, names, &entries[i]) {
            Ok(()) => {},
            Err(error) => {
                proof {
                    lemma_entries_error(listed, models, (i + 1) as nat, models.len());
                }
                return Err(error);
            },
        }
        i = i + 1;
        proof {
            let bytes = entry_bytes(listed, models[i - 1])->Ok_0;
            assert(array@ =~= start + (before + bytes));
        }
    }
    let name_at: u16 = match find_name(names, "entries") {
        Ok(index) => index,
        Err(error) => return Err(error),
    };
    let type_at: u16 = match find_name(names, "array:localizationPersistenceOnScreenEntry") {
        Ok(index) => index,
        Err(error) => return Err(error),
    };
    let mut object: Vec<u8> = Vec::new();
    object.push(0);
    match write_property(&mut object, name_at, type_at, &array) {
        Ok(()) => {},
        Err(error) => return Err(error),
    }
    write_u16(&mut object, 0);
    assert(object@ =~= object_bytes(listed, models)->Ok_0);
    Ok(object)
}

proof fn lemma_entries_error(
    names: Seq<NameModel>,
    entries: Seq<EntryModel>,
    i: nat,
    n: nat,
)
    requires
        i <= n,
        entries_bytes(names, entries, i) is Err,
    ensures
        entries_bytes(names, entries, n) == entries_bytes(names, entries, i),
    decreases n - i,
{
    if i < n {
        lemma_entries_error(names, entries, i, (n - 1) as nat);
    }
}

/// Writes a 32-bit number over some bytes.
fn write_u32_at(bytes: &mut Vec<u8>, at: usize, value: u32)
    requires
        at + 4 <= old(bytes)@.len(),
    ensures
        final(bytes)@ == patched(old(bytes)@, at as nat, value as nat),
        final(bytes)@.len() == old(bytes)@.len(),
{
    let ghost before = bytes@;
    let mut number: Vec<u8> = Vec::new();
    write_u32(&mut number, value);
    proof {
        binary::lemma_le_bytes_len(value as nat, 4);
        assert(number@ =~= binary::le_bytes(value as nat, 4));
    }
    let size: usize = bytes.len();
    bytes.set(at, number[0]);
    bytes.set(at + 1, number[1]);
    bytes.set(at + 2, number[2]);
    bytes.set(at + 3, number[3]);
    assert(bytes@ =~= patched(before, at as nat, value as nat));
}

fn refresh(bytes: Vec<u8>, table: usize, chunk_size: u32, chunk_offset: u32) -> (result: Vec<u8>)
    requires
        table + 48 <= bytes@.len(),
        160 <= bytes@.len() <= 0xffff_ffff,
    ensures
        result@ == refreshed(
            bytes@,
            table as nat,
            chunk_size as nat,
            chunk_offset as nat,
        ),
{
    let end: u32 = bytes.len() as u32;
    let mut bytes: Vec<u8> = bytes;
    write_u32_at(&mut bytes, table + 32, chunk_size);
    write_u32_at(&mut bytes, table + 36, chunk_offset);
    write_u32_at(&mut bytes, 24, end);
    write_u32_at(&mut bytes, 28, end);
    let table_crc: u32 = crc32(part(&bytes, table, table + 48));
    write_u32_at(&mut bytes, 96, table_crc);
    let mut header: Vec<u8> = to_vec(part(&bytes, 0, 160));
    write_u32_at(&mut header, 32, 0xdead_beef);
    let header_crc: u32 = crc32(&header);
    write_u32_at(&mut bytes, 32, header_crc);
    bytes
}

/// Writes entries to a resource that takes its tables and its first export from
/// a template.
pub fn write_entries(template: &[u8], entries: &[OnScreenEntry]) -> (result: Result<
    Vec<u8>,
    LocalizationError,
>)
    ensures
        match written(template@, entry_models(entries@)) {
            Err(error) => result matches Err(e) && e == error,
            Ok(bytes) => result matches Ok(r) && r@ == bytes,
        },
{
    let inspection: Cr2wInspection = match inspect(template) {
        Ok(inspection) => inspection,
        Err(error) => return Err(LocalizationError::Cr2w(error)),
    };
    let ghost model = inspection@;
    if inspection.exports.len() != 2 {
        assert(model.exports.len() == inspection.exports@.len());
        return Err(unsupported_layout(Layout::TemplateExportCount));
    }
    assert(model.exports[0] == inspection.exports@[0]@);
    let end: u64 = inspection.exports[0].data_offset as u64
        + inspection.exports[0].data_size as u64;
    proof {
        cr2w::lemma_tables(template@);
    }
    let table: usize = inspection.header.tables[4].offset as usize;
    let object: Vec<u8> = match write_object(&inspection.names, entries) {
        Ok(object) => object,
        Err(error) => return Err(error),
    };
    let mut bytes: Vec<u8> = if end <= template.len() as u64 {
        to_vec(part(template, 0, end as usize))
    } else {
        to_vec(template)
    };
    append(&mut bytes, &object);
    if bytes.len() > 0xffff_ffff || end > 0xffff_ffff {
        return Err(LocalizationError::TooLarge);
    }
    if bytes.len() < 48 || table > bytes.len() - 48 {
        return Err(unsupported_layout(Layout::WriteOutsideTemplate));
    }
    if bytes.len() < 160 {
        return Err(unsupported_layout(Layout::TruncatedHeader));
    }
    Ok(refresh(bytes, table, object.len() as u32, end as u32))
}

} // verus!
