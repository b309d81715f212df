//! Typed codec for `localizationPersistenceOnScreenEntries` resources.

use crate::binary;
use crate::binary::{read_u16_le, read_u32_le};
use crate::cr2w;
use crate::cr2w::{inspect, name_models, Cr2wError, Cr2wInspection, Cr2wName, NameModel};
use crate::sequence;
use crate::sequence::part;
use crate::text::{from_utf8, same_text};
use vstd::arithmetic::div_mod::{lemma_add_mod_noop_right, lemma_mul_mod_noop_right};
use vstd::arithmetic::power2::{lemma2_to64, lemma_pow2_adds, lemma_pow2_strictly_increases, pow2};
use vstd::prelude::*;
use vstd::utf8;

verus! {

/// What a localization resource has that this codec does not take.
#[derive(Debug, Clone, Copy, PartialEq, Eq, Structural)]
pub enum Layout {
    UnexpectedExports,
    MissingEntriesProperty,
    UnexpectedRootProperty,
    ClassMarker,
    TruncatedNumber,
    PropertySize,
    TruncatedProperty,
    PropertyName,
    PropertyType,
    EntryPropertyType,
    EntryProperty,
    Utf16String,
    MissingStringLength,
    TruncatedLength,
    TruncatedString,
    InvalidString,
    TemplateExportCount,
    TemplateName,
    NonzeroPrimaryKey,
    WriteOutsideTemplate,
    TruncatedHeader,
}

/// Reports localization resources that cannot be read or written.
#[derive(Debug, Clone, Copy, PartialEq, Eq, Structural)]
pub enum LocalizationError {
    /// Not a valid CR2W file.
    Cr2w(Cr2wError),
    /// A layout that is not supported.
    Unsupported(Layout),
    /// The data exceeds 32-bit offsets.
    TooLarge,
}

/// One line of text on the screen.
#[derive(Debug)]
pub struct OnScreenEntry {
    pub red_type: String,
    pub female_variant: String,
    pub male_variant: String,
    pub primary_key: String,
    pub secondary_key: String,
}

/// What an entry holds.
pub ghost struct EntryModel {
    pub red_type: Seq<char>,
    pub female_variant: Seq<char>,
    pub male_variant: Seq<char>,
    pub primary_key: Seq<char>,
    pub secondary_key: Seq<char>,
}

impl View for OnScreenEntry {
    type V = EntryModel;

    open spec fn view(&self) -> EntryModel {
        EntryModel {
            red_type: self.red_type@,
            female_variant: self.female_variant@,
            male_variant: self.male_variant@,
            primary_key: self.primary_key@,
            secondary_key: self.secondary_key@,
        }
    }
}

/// What entries hold.
pub open spec fn entry_models(entries: Seq<OnScreenEntry>) -> Seq<EntryModel> {
    entries.map_values(|entry: OnScreenEntry| entry@)
}

/// An entry without texts.
pub open spec fn empty_entry() -> EntryModel {
    EntryModel {
        red_type: "localizationPersistenceOnScreenEntry"@,
        female_variant: seq![],
        male_variant: seq![],
        primary_key: "0"@,
        secondary_key: seq![],
    }
}

// ---------------------------------------------------------------------------
// Strings
// ---------------------------------------------------------------------------

pub open spec fn unsupported(layout: Layout) -> LocalizationError {
    LocalizationError::Unsupported(layout)
}

/// The rest of a length from `at` on: seven bits in each byte, the low ones
/// first, while the high bit says that more follow.
pub open spec fn length_rest(bytes: Seq<u8>, at: nat) -> Option<(nat, nat)>
    decreases bytes.len() - at,
{
    if at >= bytes.len() {
        None
    } else if bytes[at as int] < 0x80 {
        Some((bytes[at as int] as nat, at + 1))
    } else {
        match length_rest(bytes, at + 1) {
            None => None,
            Some((rest, next)) => Some(((bytes[at as int] - 0x80) as nat + 128 * rest, next)),
        }
    }
}

/// A length as a machine word: the bits of its groups, of which those beyond the
/// word are lost. It is as large as can be where a whole group lies beyond.
pub open spec fn cut_length(length: nat, groups: nat) -> nat {
    if 6 + 7 * (groups - 1) < usize::BITS {
        length % (usize::MAX as nat + 1)
    } else {
        usize::MAX as nat
    }
}

/// The sign of a prefixed length, the length, and where it ends. The first byte
/// holds the sign, whether more follows, and six bits.
pub open spec fn prefixed_length(bytes: Seq<u8>) -> Result<(bool, nat, nat), LocalizationError> {
    if bytes.len() == 0 {
        Err(unsupported(Layout::MissingStringLength))
    } else {
        let low = (bytes[0] % 64) as nat;
        if (bytes[0] / 64) % 2 == 0 {
            Ok((bytes[0] >= 0x80, low, 1))
        } else {
            match length_rest(bytes, 1) {
                None => Err(unsupported(Layout::TruncatedLength)),
                Some((rest, next)) => Ok(
                    (
                        bytes[0] >= 0x80,
                        cut_length(low + 64 * rest, (next - 1) as nat),
                        next,
                    ),
                ),
            }
        }
    }
}

/// A string after its length.
pub open spec fn prefixed_string(bytes: Seq<u8>) -> Result<Seq<char>, LocalizationError> {
    match prefixed_length(bytes) {
        Err(error) => Err(error),
        Ok((negative, length, start)) => if !negative {
            Err(unsupported(Layout::Utf16String))
        } else if start + length > bytes.len() {
            Err(unsupported(Layout::TruncatedString))
        } else {
            let coded = bytes.subrange(start as int, (start + length) as int);
            if utf8::valid_utf8(coded) {
                Ok(utf8::decode_utf8(coded))
            } else {
                Err(unsupported(Layout::InvalidString))
            }
        },
    }
}

/// A length in groups of seven bits.
pub open spec fn length_groups(value: nat) -> Seq<u8>
    decreases value,
{
    if value < 128 {
        seq![value as u8]
    } else {
        seq![(0x80 + value % 128) as u8] + length_groups(value / 128)
    }
}

/// The prefix of a UTF-8 string of this length.
pub open spec fn length_prefix(value: nat) -> Seq<u8> {
    if value < 64 {
        seq![(0x80 + value) as u8]
    } else {
        seq![(0xc0 + value % 64) as u8] + length_groups(value / 64)
    }
}

proof fn lemma_length_rest(bytes: Seq<u8>, at: nat)
    ensures
        length_rest(bytes, at) matches Some((_, next)) ==> at < next <= bytes.len(),
    decreases bytes.len() - at,
{
    if at < bytes.len() && bytes[at as int] >= 0x80 {
        lemma_length_rest(bytes, at + 1);
    }
}

pub proof fn lemma_read_groups(bytes: Seq<u8>, at: nat, value: nat)
    requires
        sequence::stands(bytes, at, length_groups(value)),
    ensures
        length_rest(bytes, at) == Some((value, at + length_groups(value).len())),
    decreases value,
{
    let groups = length_groups(value);
    sequence::lemma_stands_index(bytes, at, groups, 0);
    if value >= 128 {
        let first = seq![(0x80 + value % 128) as u8];
        sequence::lemma_stands_split(bytes, at, first, length_groups(value / 128));
        lemma_read_groups(bytes, at + 1, value / 128);
    }
}

proof fn lemma_groups_len(value: nat)
    ensures
        length_groups(value).len() >= 1,
        length_groups(value).len() > 1 ==> pow2((7 * (length_groups(value).len() - 1)) as nat)
            <= value,
    decreases value,
{
    if value >= 128 {
        lemma_groups_len(value / 128);
        let n = length_groups(value / 128).len();
        lemma2_to64();
        if n > 1 {
            lemma_pow2_adds((7 * (n - 1)) as nat, 7);
            let x = pow2((7 * (n - 1)) as nat) as int;
            assert(x * 128 <= value) by (nonlinear_arith)
                requires
                    x <= value / 128,
                    value >= 0,
            ;
        }
        assert(length_groups(value).len() == n + 1);
    }
}

/// A length that fits a machine word is not cut.
pub proof fn lemma_uncut(length: nat)
    requires
        64 <= length <= usize::MAX,
    ensures
        cut_length(length, length_groups(length / 64).len()) == length,
{
    lemma_groups_len(length / 64);
    let n = length_groups(length / 64).len();
    let last = (6 + 7 * (n - 1)) as nat;
    lemma2_to64();
    if n > 1 {
        lemma_pow2_adds((7 * (n - 1)) as nat, 6);
        let x = pow2((7 * (n - 1)) as nat) as int;
        assert(x * 64 <= length) by (nonlinear_arith)
            requires
                x <= length / 64,
                length >= 0,
        ;
        assert(pow2(last) <= usize::MAX);
        if last >= usize::BITS {
            if last > usize::BITS {
                lemma_pow2_strictly_increases(usize::BITS as nat, last);
            }
            assert(pow2(usize::BITS as nat) > usize::MAX);
        }
    }
    assert(length % (usize::MAX as nat + 1) == length) by (nonlinear_arith)
        requires
            0 <= length <= usize::MAX,
    ;
}

/// A string that was written after its length is read back.
pub proof fn law_prefixed_string(value: Seq<char>)
    requires
        utf8::encode_utf8(value).len() <= usize::MAX,
    ensures
        prefixed_string(
            length_prefix(utf8::encode_utf8(value).len()) + utf8::encode_utf8(value),
        ) == Ok::<Seq<char>, LocalizationError>(value),
{
    let coded = utf8::encode_utf8(value);
    let prefix = length_prefix(coded.len());
    let bytes = prefix + coded;
    utf8::encode_utf8_valid_utf8(value);
    utf8::encode_utf8_decode_utf8(value);
    assert(bytes[0] == prefix[0]);
    if coded.len() >= 64 {
        let groups = length_groups(coded.len() / 64);
        assert(bytes.subrange(1, (1 + groups.len()) as int) =~= groups);
        lemma_read_groups(bytes, 1, coded.len() / 64);
        lemma_uncut(coded.len());
    }
    assert(bytes.subrange(prefix.len() as int, bytes.len() as int) =~= coded);
}

/// Reads a length, its sign and where it ends.
pub fn read_vlq(bytes: &[u8]) -> (result: Result<(bool, usize, usize), LocalizationError>)
    ensures
        match prefixed_length(bytes@) {
            Err(error) => result matches Err(e) && e == error,
            Ok((negative, length, next)) => result matches Ok(r) && r.0 == negative && r.1
                == length && r.2 == next && 1 <= next <= bytes@.len(),
        },
{
    if bytes.len() == 0 {
        return Err(unsupported_layout(Layout::MissingStringLength));
    }
    let first: u8 = bytes[0];
    let negative: bool = first >= 0x80;
    let low: usize = (first % 64) as usize;
    if (first / 64) % 2 == 0 {
        return Ok((negative, low, 1));
    }
    let mut end: usize = 1;
    let size: usize = bytes.len();
    while end < size && bytes[end] >= 0x80
        invariant
            1 <= end <= size == bytes@.len(),
            forall|i: int| 1 <= i < end ==> bytes@[i] >= 0x80,
        decreases size - end,
    {
        end = end + 1;
    }
    if end >= size {
        proof {
            lemma_no_end(bytes@, 1);
        }
        return Err(unsupported_layout(Layout::TruncatedLength));
    }
    let range: u128 = usize::MAX as u128 + 1;
    let mut rest: u128 = bytes[end] as u128;
    let mut at: usize = end;
    proof {
        assert(length_rest(bytes@, end as nat) == Some((bytes@[end as int] as nat, (end + 1) as nat)));
        assert(rest % range == rest);
    }
    while at > 1
        invariant
            1 <= at <= end < size == bytes@.len(),
            range == usize::MAX + 1,
            forall|i: int| 1 <= i < end ==> bytes@[i] >= 0x80,
            rest < range,
            length_rest(bytes@, at as nat) matches Some((value, next)) && next == end + 1 && rest
                == value % (range as nat),
        decreases at,
    {
        let ghost (value, _) = length_rest(bytes@, at as nat)->0;
        at = at - 1;
        let more: u128 = (bytes[at] - 0x80) as u128;
        proof {
            lemma_cut(more as int, 128, value as int, range as int);
        }
        rest = (more + 128 * rest) % range;
    }
    let ghost (value, _) = length_rest(bytes@, 1)->0;
    if end - 1 > (usize::BITS as usize - 7) / 7 {
        return Ok((negative, usize::MAX, end + 1));
    }
    proof {
        lemma_cut(low as int, 64, value as int, range as int);
    }
    let length: u128 = (low as u128 + 64 * rest) % range;
    Ok((negative, length as usize, end + 1))
}

proof fn lemma_cut(a: int, b: int, c: int, m: int)
    requires
        m > 0,
    ensures
        (a + b * (c % m)) % m == (a + b * c) % m,
{
    lemma_mul_mod_noop_right(b, c, m);
    lemma_add_mod_noop_right(a, b * (c % m), m);
    lemma_add_mod_noop_right(a, b * c, m);
}

proof fn lemma_no_end(bytes: Seq<u8>, at: nat)
    requires
        forall|i: int| at <= i < bytes.len() ==> bytes[i] >= 0x80,
    ensures
        length_rest(bytes, at) is None,
    decreases bytes.len() - at,
{
    if at < bytes.len() {
        lemma_no_end(bytes, at + 1);
    }
}

pub fn unsupported_layout(layout: Layout) -> (result: LocalizationError)
    ensures
        result == unsupported(layout),
{
    LocalizationError::Unsupported(layout)
}

/// Reads a string after its length.
pub fn read_prefixed_string(bytes: &[u8]) -> (result: Result<String, LocalizationError>)
    ensures
        match prefixed_string(bytes@) {
            Err(error) => result matches Err(e) && e == error,
            Ok(value) => result matches Ok(r) && r@ == value,
        },
{
    let (negative, length, start): (bool, usize, usize) = match read_vlq(bytes) {
        Ok(found) => found,
        Err(error) => return Err(error),
    };
    if !negative {
        return Err(unsupported_layout(Layout::Utf16String));
    }
    if length > bytes.len() - start {
        return Err(unsupported_layout(Layout::TruncatedString));
    }
    match from_utf8(part(bytes, start, start + length)) {
        Some(value) => Ok(value),
        None => Err(unsupported_layout(Layout::InvalidString)),
    }
}

/// Appends the prefix of a UTF-8 string of this length.
pub fn write_negative_vlq(output: &mut Vec<u8>, value: u32)
    ensures
        final(output)@ == old(output)@ + length_prefix(value as nat),
{
    let ghost start = output@;
    if value < 64 {
        output.push((0x80 + value) as u8);
        assert(output@ =~= start + length_prefix(value as nat));
        return;
    }
    output.push((0xc0 + value % 64) as u8);
    let mut rest: u32 = value / 64;
    assert(output@ + length_groups(rest as nat) =~= start + length_prefix(value as nat));
    while rest >= 128
        invariant
            output@ + length_groups(rest as nat) == start + length_prefix(value as nat),
        decreases rest,
    {
        let ghost before = output@;
        output.push((0x80 + rest % 128) as u8);
        proof {
            assert(before + length_groups(rest as nat) =~= output@ + length_groups(
                (rest / 128) as nat,
            ));
        }
        rest = rest / 128;
    }
    let ghost before = output@;
    output.push(rest as u8);
    assert(output@ =~= before + length_groups(rest as nat));
}

// ---------------------------------------------------------------------------
// Properties
// ---------------------------------------------------------------------------

/// A property: its name, its type, its payload, and where it ends.
pub ghost struct Property {
    pub name: nat,
    pub red_type: nat,
    pub payload: Seq<u8>,
    pub next: nat,
}

/// The property at `at`; a zero name index ends the list.
pub open spec fn property_at(bytes: Seq<u8>, at: nat, names: nat) -> Result<
    Option<Property>,
    LocalizationError,
> {
    match binary::number_at(bytes, at, 2) {
        None => Err(unsupported(Layout::TruncatedNumber)),
        Some(name) => if name == 0 {
            Ok(None)
        } else {
            match (binary::number_at(bytes, at + 2, 2), binary::number_at(bytes, at + 4, 4)) {
                (Some(red_type), Some(size)) => if size < 4 {
                    Err(unsupported(Layout::PropertySize))
                } else if at + 8 + (size - 4) > bytes.len() {
                    Err(unsupported(Layout::TruncatedProperty))
                } else if name >= names {
                    Err(unsupported(Layout::PropertyName))
                } else if red_type >= names {
                    Err(unsupported(Layout::PropertyType))
                } else {
                    Ok(
                        Some(
                            Property {
                                name,
                                red_type,
                                payload: bytes.subrange(at as int + 8, (at + 4 + size) as int),
                                next: (at + 4 + size) as nat,
                            },
                        ),
                    )
                },
                _ => Err(unsupported(Layout::TruncatedNumber)),
            }
        },
    }
}

/// An entry with one of its texts set.
pub open spec fn with_text(entry: EntryModel, name: Seq<char>, value: Seq<char>) -> Option<
    EntryModel,
> {
    if name == "femaleVariant"@ {
        Some(EntryModel { female_variant: value, ..entry })
    } else if name == "maleVariant"@ {
        Some(EntryModel { male_variant: value, ..entry })
    } else if name == "secondaryKey"@ {
        Some(EntryModel { secondary_key: value, ..entry })
    } else {
        None
    }
}

/// The rest of an entry's properties from `at` on, and where they end.
pub open spec fn entry_from(bytes: Seq<u8>, at: nat, names: Seq<NameModel>, entry: EntryModel) -> Result<
    (EntryModel, nat),
    LocalizationError,
>
    decreases bytes.len() - at,
{
    match property_at(bytes, at, names.len()) {
        Err(error) => Err(error),
        Ok(None) => Ok((entry, at + 2)),
        Ok(Some(property)) => if names[property.red_type as int].value != "String"@ {
            Err(unsupported(Layout::EntryPropertyType))
        } else {
            match prefixed_string(property.payload) {
                Err(error) => Err(error),
                Ok(value) => match with_text(entry, names[property.name as int].value, value) {
                    None => Err(unsupported(Layout::EntryProperty)),
                    Some(entry) => if property.next <= at {
                        Ok((entry, at))
                    } else {
                        entry_from(bytes, property.next, names, entry)
                    },
                },
            }
        },
    }
}

/// `count` entries from `at` on, after those of `found`.
pub open spec fn entries_from(
    bytes: Seq<u8>,
    at: nat,
    count: nat,
    names: Seq<NameModel>,
    found: Seq<EntryModel>,
) -> Result<Seq<EntryModel>, LocalizationError>
    decreases count,
{
    if count == 0 {
        Ok(found)
    } else if at >= bytes.len() || bytes[at as int] != 0 {
        Err(unsupported(Layout::ClassMarker))
    } else {
        match entry_from(bytes, at + 1, names, empty_entry()) {
            Err(error) => Err(error),
            Ok((entry, next)) => entries_from(
                bytes,
                next,
                (count - 1) as nat,
                names,
                found.push(entry),
            ),
        }
    }
}

/// The entries of an array.
pub open spec fn entry_array(bytes: Seq<u8>, names: Seq<NameModel>) -> Result<
    Seq<EntryModel>,
    LocalizationError,
> {
    match binary::number_at(bytes, 0, 4) {
        None => Err(unsupported(Layout::TruncatedNumber)),
        Some(count) => entries_from(bytes, 4, count, names, seq![]),
    }
}

/// The entries of the object at `at`: its only property that is read.
pub open spec fn entries_object(bytes: Seq<u8>, at: nat, names: Seq<NameModel>) -> Result<
    Seq<EntryModel>,
    LocalizationError,
> {
    if at >= bytes.len() || bytes[at as int] != 0 {
        Err(unsupported(Layout::ClassMarker))
    } else {
        match property_at(bytes, at + 1, names.len()) {
            Err(error) => Err(error),
            Ok(None) => Err(unsupported(Layout::MissingEntriesProperty)),
            Ok(Some(property)) => if names[property.name as int].value != "entries"@
                || names[property.red_type as int].value
                != "array:localizationPersistenceOnScreenEntry"@ {
                Err(unsupported(Layout::UnexpectedRootProperty))
            } else {
                entry_array(property.payload, names)
            },
        }
    }
}

/// The entries of a localization resource.
pub open spec fn resource_entries(bytes: Seq<u8>) -> Result<Seq<EntryModel>, LocalizationError> {
    match cr2w::inspection(bytes) {
        Err(error) => Err(LocalizationError::Cr2w(error)),
        Ok(found) => if found.exports.len() != 2 || found.exports[0].class_name != "JsonResource"@
            || found.exports[1].class_name != "localizationPersistenceOnScreenEntries"@ {
            Err(unsupported(Layout::UnexpectedExports))
        } else {
            entries_object(bytes, found.exports[1].data_offset as nat, found.names)
        },
    }
}

/// A property that was read: name and type indexes, and where its payload
/// starts and ends.
struct PropertyAt {
    name: usize,
    red_type: usize,
    start: usize,
    end: usize,
}

fn read_property(bytes: &[u8], at: usize, names: usize) -> (result: Result<
    Option<PropertyAt>,
    LocalizationError,
>)
    requires
        at <= bytes@.len(),
    ensures
        match property_at(bytes@, at as nat, names as nat) {
            Err(error) => result matches Err(e) && e == error,
            Ok(None) => result matches Ok(None) && at + 2 <= bytes@.len(),
            Ok(Some(property)) => result matches Ok(Some(r)) && r.name == property.name
                && r.red_type == property.red_type && at < r.start <= r.end <= bytes@.len()
                && bytes@.subrange(r.start as int, r.end as int) == property.payload && r.end
                == property.next && property.name < names && property.red_type < names,
        },
{
    let name: usize = match read_u16_le(bytes, at) {
        Some(name) => name as usize,
        None => return Err(unsupported_layout(Layout::TruncatedNumber)),
    };
    if name == 0 {
        return Ok(None);
    }
    let length: usize = bytes.len();
    let red_type: usize = match read_u16_le(bytes, at + 2) {
        Some(red_type) => red_type as usize,
        None => return Err(unsupported_layout(Layout::TruncatedNumber)),
    };
    let size: usize = match read_u32_le(bytes, at + 4) {
        Some(size) => size as usize,
        None => return Err(unsupported_layout(Layout::TruncatedNumber)),
    };
    if size < 4 {
        return Err(unsupported_layout(Layout::PropertySize));
    }
    if size - 4 > length - (at + 8) {
        return Err(unsupported_layout(Layout::TruncatedProperty));
    }
    if name >= names {
        return Err(unsupported_layout(Layout::PropertyName));
    }
    if red_type >= names {
        return Err(unsupported_layout(Layout::PropertyType));
    }
    Ok(Some(PropertyAt { name, red_type, start: at + 8, end: at + 8 + (size - 4) }))
}

/// Sets one of an entry's texts.
fn set_text(entry: OnScreenEntry, name: &str, value: String) -> (result: Option<OnScreenEntry>)
    ensures
        match with_text(entry@, name@, value@) {
            None => result is None,
            Some(model) => result matches Some(r) && r@ == model,
        },
{
    if same_text(name, "femaleVariant") {
        Some(OnScreenEntry { female_variant: value, ..entry })
    } else if same_text(name, "maleVariant") {
        Some(OnScreenEntry { male_variant: value, ..entry })
    } else if same_text(name, "secondaryKey") {
        Some(OnScreenEntry { secondary_key: value, ..entry })
    } else {
        None
    }
}

fn new_entry() -> (result: OnScreenEntry)
    ensures
        result@ == empty_entry(),
{
    OnScreenEntry {
        red_type: "localizationPersistenceOnScreenEntry".to_owned(),
        female_variant: String::new(),
        male_variant: String::new(),
        primary_key: "0".to_owned(),
        secondary_key: String::new(),
    }
}

fn parse_entry(bytes: &[u8], from: usize, names: &[Cr2wName]) -> (result: Result<
    (OnScreenEntry, usize),
    LocalizationError,
>)
    requires
        from <= bytes@.len(),
    ensures
        match entry_from(bytes@, from as nat, name_models(names@), empty_entry()) {
            Err(error) => result matches Err(e) && e == error,
            Ok((entry, next)) => result matches Ok(r) && r.0@ == entry && r.1 == next && next
                <= bytes@.len(),
        },
{
    let mut entry: OnScreenEntry = new_entry();
    let mut at: usize = from;
    let size: usize = bytes.len();
    let ghost models = name_models(names@);
    loop
        invariant
            at <= bytes@.len() == size,
            models == name_models(names@),
            entry_from(bytes@, from as nat, models, empty_entry()) == entry_from(
                bytes@,
                at as nat,
                models,
                entry@,
            ),
        decreases bytes@.len() - at,
    {
        let property: PropertyAt = match read_property(bytes, at, names.len()) {
            Err(error) => return Err(error),
            Ok(None) => return Ok((entry, at + 2)),
            Ok(Some(property)) => property,
        };
        proof {
            assert(models[property.name as int] == names@[property.name as int]@);
            assert(models[property.red_type as int] == names@[property.red_type as int]@);
        }
        if !same_text(names[property.red_type].value.as_str(), "String") {
            return Err(unsupported_layout(Layout::EntryPropertyType));
        }
        let value: String = match read_prefixed_string(
            part(bytes, property.start, property.end),
        ) {
            Ok(value) => value,
            Err(error) => return Err(error),
        };
        entry = match set_text(entry, names[property.name].value.as_str(), value) {
            Some(entry) => entry,
            None => return Err(unsupported_layout(Layout::EntryProperty)),
        };
        at = property.end;
    }
}

fn parse_entry_array(payload: &[u8], names: &[Cr2wName]) -> (result: Result<
    Vec<OnScreenEntry>,
    LocalizationError,
>)
    ensures
        match entry_array(payload@, name_models(names@)) {
            Err(error) => result matches Err(e) && e == error,
            Ok(entries) => result matches Ok(r) && entry_models(r@) == entries,
        },
{
    let count: u32 = match read_u32_le(payload, 0) {
        Some(count) => count,
        None => return Err(unsupported_layout(Layout::TruncatedNumber)),
    };
    let mut result: Vec<OnScreenEntry> = Vec::new();
    let mut at: usize = 4;
    let mut left: u32 = count;
    assert(entry_models(result@) =~= Seq::<EntryModel>::empty());
    while left > 0
        invariant
            at <= payload@.len(),
            entry_array(payload@, name_models(names@)) == entries_from(
                payload@,
                at as nat,
                left as nat,
                name_models(names@),
                entry_models(result@),
            ),
        decreases left,
    {
        if at >= payload.len() || payload[at] != 0 {
            return Err(unsupported_layout(Layout::ClassMarker));
        }
        let (entry, next): (OnScreenEntry, usize) = match parse_entry(payload, at + 1, names) {
            Ok(found) => found,
            Err(error) => return Err(error),
        };
        proof {
            assert(entry_models(result@.push(entry)) =~= entry_models(result@).push(entry@));
        }
        result.push(entry);
        at = next;
        left = left - 1;
    }
    Ok(result)
}

fn read_entries_object(bytes: &[u8], at: usize, names: &[Cr2wName]) -> (result: Result<
    Vec<OnScreenEntry>,
    LocalizationError,
>)
    ensures
        match entries_object(bytes@, at as nat, name_models(names@)) {
            Err(error) => result matches Err(e) && e == error,
            Ok(entries) => result matches Ok(r) && entry_models(r@) == entries,
        },
{
    let ghost models = name_models(names@);
    if at >= bytes.len() || bytes[at] != 0 {
        return Err(unsupported_layout(Layout::ClassMarker));
    }
    let property: PropertyAt = match read_property(bytes, at + 1, names.len()) {
        Err(error) => return Err(error),
        Ok(None) => return Err(unsupported_layout(Layout::MissingEntriesProperty)),
        Ok(Some(property)) => property,
    };
    proof {
        assert(models[property.name as int] == names@[property.name as int]@);
        assert(models[property.red_type as int] == names@[property.red_type as int]@);
    }
    if !same_text(names[property.name].value.as_str(), "entries") || !same_text(
        names[property.red_type].value.as_str(),
        "array:localizationPersistenceOnScreenEntry",
    ) {
        return Err(unsupported_layout(Layout::UnexpectedRootProperty));
    }
    parse_entry_array(part(bytes, property.start, property.end), names)
}

/// Reads the entries of a localization resource.
pub fn read_entries(bytes: &[u8]) -> (result: Result<Vec<OnScreenEntry>, LocalizationError>)
    ensures
        match resource_entries(bytes@) {
            Err(error) => result matches Err(e) && e == error,
            Ok(entries) => result matches Ok(r) && entry_models(r@) == entries,
        },
{
    let inspection: Cr2wInspection = match inspect(bytes) {
        Ok(inspection) => inspection,
        Err(error) => return Err(LocalizationError::Cr2w(error)),
    };
    let ghost model = inspection@;
    if inspection.exports.len() != 2 {
        assert(model.exports.len() == inspection.exports@.len());
        return Err(unsupported_layout(Layout::UnexpectedExports));
    }
    proof {
        assert(model.exports[0] == inspection.exports@[0]@);
        assert(model.exports[1] == inspection.exports@[1]@);
    }
    if !same_text(inspection.exports[0].class_name.as_str(), "JsonResource") || !same_text(
        inspection.exports[1].class_name.as_str(),
        "localizationPersistenceOnScreenEntries",
    ) {
        return Err(unsupported_layout(Layout::UnexpectedExports));
    }
    read_entries_object(
        bytes,
        inspection.exports[1].data_offset as usize,
        &inspection.names,
    )
}

} // verus!
