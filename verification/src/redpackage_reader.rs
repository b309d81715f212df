//! The values of RED packages.

use crate::entries;
use crate::entries::has_name;
use crate::number_text;
use crate::number_text::{decimal_text, signed_decimal_text};
use crate::red_types;
use crate::red_types::{after_prefix, is_text, names_handle, names_reference, split_count};
use crate::redpackage;
use crate::redpackage::{
    add_offset, byte, i16_at, malformed, u16_at, u32_at, u64_at, unsupported, Import, PackageError,
    PackagePath,
};
use crate::sequence::part;
use crate::text;
use crate::text::{encode_base64, from_utf8, push_text, text_of};
use crate::value;
use crate::value::{copy_text, set_entry, Value};
use vstd::prelude::*;

verus! {

/// What the values of a package are read from.
pub ghost struct Package {
    pub bytes: Seq<u8>,
    pub names: Seq<Seq<char>>,
    pub imports: Seq<redpackage::ImportModel>,
    pub classes: Seq<(Seq<char>, ())>,
    pub version: nat,
    pub unknown1: nat,
}

/// Reads the values of a package.
pub struct Reader<'a> {
    pub bytes: &'a [u8],
    pub names: &'a Vec<String>,
    pub imports: &'a Vec<Import>,
    pub classes: &'a Vec<String>,
    pub version: u8,
    pub unknown1: u8,
}

impl<'a> View for Reader<'a> {
    type V = Package;

    open spec fn view(&self) -> Package {
        Package {
            bytes: self.bytes@,
            names: redpackage::name_texts(self.names@),
            imports: redpackage::import_models(self.imports@),
            classes: entries::name_keys(self.classes@),
            version: self.version as nat,
            unknown1: self.unknown1 as nat,
        }
    }
}

/// A value that was read, and where it ends.
pub type Reading = Result<(value::Model, nat), redpackage::Fault>;

/// No entries.
pub open spec fn none() -> Seq<(Seq<char>, value::Model)> {
    Seq::empty()
}

/// A text that is stored as such or in another form.
pub open spec fn stored(t: Seq<char>, storage: Seq<char>, content: Seq<char>) -> value::Model {
    value::Model::Object(
        entries::put(
            entries::put(
                entries::put(none(), "$type"@, value::Model::Text(t)),
                "$storage"@,
                value::Model::Text(storage),
            ),
            "$value"@,
            value::Model::Text(content),
        ),
    )
}

/// A text that is stored as such.
pub open spec fn stored_text(t: Seq<char>, content: Seq<char>) -> value::Model {
    stored(t, "string"@, content)
}

/// A number that is stored in place of a text.
pub open spec fn stored_number(t: Seq<char>, number: nat) -> value::Model {
    stored(t, "uint64"@, number_text::decimal(number))
}

fn new_stored(t: &str, storage: &str, content: &str) -> (result: Value)
    ensures
        result@ == stored(t@, storage@, content@),
{
    let mut fields: Vec<(String, Value)> = Vec::new();
    set_entry(&mut fields, "$type", Value::text(t));
    set_entry(&mut fields, "$storage", Value::text(storage));
    set_entry(&mut fields, "$value", Value::text(content));
    Value::Object(fields)
}

/// Makes a text that is stored as such.
pub fn storage_string(t: &str, content: &str) -> (result: Value)
    ensures
        result@ == stored_text(t@, content@),
{
    new_stored(t, "string", content)
}

/// Makes a number that is stored in place of a text.
pub fn storage_u64(t: &str, number: u64) -> (result: Value)
    ensures
        result@ == stored_number(t@, number as nat),
{
    new_stored(t, "uint64", decimal_text(number).as_str())
}

/// Two entries with texts.
pub open spec fn localized(unknown: Seq<char>, content: Seq<char>) -> value::Model {
    value::Model::Object(
        entries::put(
            entries::put(none(), "unk1"@, value::Model::Text(unknown)),
            "value"@,
            value::Model::Text(content),
        ),
    )
}

/// Makes a localized text.
pub fn new_localized(unknown: &str, content: &str) -> (result: Value)
    ensures
        result@ == localized(unknown@, content@),
{
    let mut fields: Vec<(String, Value)> = Vec::new();
    set_entry(&mut fields, "unk1", Value::text(unknown));
    set_entry(&mut fields, "value", Value::text(content));
    Value::Object(fields)
}

/// A buffer inside a value.
pub open spec fn inner_buffer(content: Seq<char>) -> value::Model {
    value::Model::Object(
        entries::put(
            entries::put(
                entries::put(none(), "BufferId"@, value::Model::Text("-1"@)),
                "Flags"@,
                value::integer(0),
            ),
            "Bytes"@,
            value::Model::Text(content),
        ),
    )
}

/// Makes a buffer inside a value.
pub fn new_inner_buffer(content: &str) -> (result: Value)
    ensures
        result@ == inner_buffer(content@),
{
    let mut fields: Vec<(String, Value)> = Vec::new();
    set_entry(&mut fields, "BufferId", Value::text("-1"));
    set_entry(&mut fields, "Flags", Value::integer(0));
    set_entry(&mut fields, "Bytes", Value::text(content));
    Value::Object(fields)
}

/// A resource reference.
pub open spec fn reference(storage: Seq<char>, path: Seq<char>, flags: Seq<char>) -> value::Model {
    value::Model::Object(
        entries::put(
            entries::put(none(), "DepotPath"@, stored("ResourcePath"@, storage, path)),
            "Flags"@,
            value::Model::Text(flags),
        ),
    )
}

/// Makes a resource reference.
pub fn new_reference(storage: &str, path: &str, flags: &str) -> (result: Value)
    ensures
        result@ == reference(storage@, path@, flags@),
{
    let mut fields: Vec<(String, Value)> = Vec::new();
    set_entry(&mut fields, "DepotPath", new_stored("ResourcePath", storage, path));
    set_entry(&mut fields, "Flags", Value::text(flags));
    Value::Object(fields)
}

/// One entry with a number.
pub open spec fn pointer(key: Seq<char>, index: int) -> value::Model {
    value::Model::Object(entries::put(none(), key, value::integer(index)))
}

/// Makes one entry with a number.
pub fn new_pointer(key: &str, index: i128) -> (result: Value)
    ensures
        result@ == pointer(key@, index as int),
{
    let mut fields: Vec<(String, Value)> = Vec::new();
    set_entry(&mut fields, key, Value::integer(index));
    Value::Object(fields)
}

/// A number of 8 bits as a signed one.
pub open spec fn signed8(value: nat) -> int {
    if value < 0x80 {
        value as int
    } else {
        value - 0x100
    }
}

/// A number of 64 bits as a signed one.
pub open spec fn signed64(value: nat) -> int {
    if value < 0x8000_0000_0000_0000 {
        value as int
    } else {
        value - 0x1_0000_0000_0000_0000
    }
}

/// What a number that was read makes.
pub open spec fn exact(
    number: Result<nat, redpackage::Fault>,
    make: spec_fn(nat) -> value::Model,
    end: nat,
) -> Reading {
    match number {
        Ok(number) => Ok((make(number), end)),
        Err(f) => Err(f),
    }
}

/// The types that are known by name.
pub open spec fn named(t: Seq<char>) -> bool {
    ||| numeric(t)
    ||| t == "CName"@
    ||| t == "String"@
    ||| t == "CString"@
    ||| t == "NodeRef"@
    ||| t == "TweakDBID"@
    ||| t == "LocalizationString"@
    ||| t == "DataBuffer"@
}

/// The types of numbers.
pub open spec fn numeric(t: Seq<char>) -> bool {
    t == "Bool"@ || t == "Uint8"@ || t == "Int8"@ || t == "Int16"@ || t == "Uint16"@ || t
        == "Int32"@ || t == "Uint32"@ || t == "Int64"@ || t == "Uint64"@ || t == "CRUID"@ || t
        == "CDateTime"@ || t == "Float"@ || t == "Double"@
}

/// Tells whether a type is that of a number.
pub fn is_numeric(t: &[char]) -> (result: bool)
    ensures
        result == numeric(t@),
{
    is_text(t, "Bool") || is_text(t, "Uint8") || is_text(t, "Int8") || is_text(t, "Int16")
        || is_text(t, "Uint16") || is_text(t, "Int32") || is_text(t, "Uint32") || is_text(
        t,
        "Int64",
    ) || is_text(t, "Uint64") || is_text(t, "CRUID") || is_text(t, "CDateTime") || is_text(
        t,
        "Float",
    ) || is_text(t, "Double")
}

fn is_named(t: &[char]) -> (result: bool)
    ensures
        result == named(t@),
{
    is_numeric(t) || is_text(t, "CName") || is_text(t, "String") || is_text(t, "CString")
        || is_text(t, "NodeRef") || is_text(t, "TweakDBID") || is_text(t, "LocalizationString")
        || is_text(t, "DataBuffer")
}

/// How a value of a type is built.
pub ghost enum Shape {
    Leaf,
    Array(Seq<char>),
    Static(nat, Seq<char>),
    Broken,
    Class,
}

/// How a value of a type is built.
pub enum Form<'a> {
    Leaf,
    Array(&'a [char]),
    Static(usize, &'a [char]),
    Broken,
    Class,
}

impl<'a> View for Form<'a> {
    type V = Shape;

    open spec fn view(&self) -> Shape {
        match self {
            Form::Leaf => Shape::Leaf,
            Form::Array(inner) => Shape::Array(inner@),
            Form::Static(count, inner) => Shape::Static(*count as nat, inner@),
            Form::Broken => Shape::Broken,
            Form::Class => Shape::Class,
        }
    }
}

/// How a value of a type is built.
pub open spec fn shape(classes: Seq<(Seq<char>, ())>, t: Seq<char>) -> Shape {
    if named(t) {
        Shape::Leaf
    } else {
        match red_types::rest_after(t, "array:"@) {
            Some(inner) => Shape::Array(inner),
            None => match red_types::rest_after(t, "static:"@) {
                Some(rest) => match red_types::count_type(rest) {
                    Some((count, inner)) => Shape::Static(count, inner),
                    None => Shape::Broken,
                },
                None => if red_types::is_handle(t) || red_types::is_reference(t) {
                    Shape::Leaf
                } else if entries::find(classes, t) is Some {
                    Shape::Class
                } else {
                    Shape::Leaf
                },
            },
        }
    }
}

/// Tells how a value of a type is built.
pub fn form_of<'a>(classes: &Vec<String>, t: &'a [char]) -> (result: Form<'a>)
    ensures
        result@ == shape(entries::name_keys(classes@), t@),
{
    if is_named(t) {
        return Form::Leaf;
    }
    if let Some(inner) = after_prefix(t, "array:") {
        return Form::Array(inner);
    }
    if let Some(rest) = after_prefix(t, "static:") {
        return match split_count(rest) {
            Some((count, inner)) => Form::Static(count, inner),
            None => Form::Broken,
        };
    }
    if names_handle(t) || names_reference(t) {
        return Form::Leaf;
    }
    if has_name(classes, text_of(t).as_str()) {
        Form::Class
    } else {
        Form::Leaf
    }
}

/// The type inside another is shorter.
pub proof fn lemma_shape(classes: Seq<(Seq<char>, ())>, t: Seq<char>)
    ensures
        match shape(classes, t) {
            Shape::Array(inner) => inner.len() < t.len(),
            Shape::Static(_, inner) => inner.len() < t.len(),
            _ => true,
        },
{
    reveal_strlit("array:");
    reveal_strlit("static:");
    match red_types::rest_after(t, "static:"@) {
        Some(rest) => {
            red_types::lemma_first_index(rest, ',');
        },
        None => {},
    }
}

/// Types whose values start with a class.
pub open spec fn nests(classes: Seq<(Seq<char>, ())>, t: Seq<char>) -> bool
    decreases t.len(),
{
    match shape(classes, t) {
        Shape::Class => true,
        Shape::Static(count, inner) => {
            proof {
                lemma_shape(classes, t);
            }
            count > 0 && nests(classes, inner)
        },
        _ => false,
    }
}

/// Tells whether values of a type start with a class.
pub fn starts_with_class(classes: &Vec<String>, t: &[char]) -> (result: bool)
    ensures
        result == nests(entries::name_keys(classes@), t@),
    decreases t@.len(),
{
    proof {
        lemma_shape(entries::name_keys(classes@), t@);
    }
    match form_of(classes, t) {
        Form::Class => true,
        Form::Static(count, inner) => count > 0 && starts_with_class(classes, inner),
        _ => false,
    }
}

/// How far classes can nest in one that takes the same bytes: the tables of a
/// compiled effect are no classes, whatever their types.
pub open spec fn class_rank(class: Seq<char>) -> nat {
    if class == "worldCompiledEffectInfo"@ {
        2
    } else {
        3
    }
}

/// The rank of the class that values of a type start with, or one.
pub open spec fn type_rank(classes: Seq<(Seq<char>, ())>, t: Seq<char>) -> nat
    decreases t.len(),
{
    match shape(classes, t) {
        Shape::Class => class_rank(t),
        Shape::Static(count, inner) => {
            proof {
                lemma_shape(classes, t);
            }
            if count > 0 {
                type_rank(classes, inner)
            } else {
                1
            }
        },
        _ => 1,
    }
}

pub proof fn lemma_type_rank(classes: Seq<(Seq<char>, ())>, t: Seq<char>)
    ensures
        1 <= type_rank(classes, t) <= 3,
        nests(classes, t) == (type_rank(classes, t) > 1),
    decreases t.len(),
{
    lemma_shape(classes, t);
    match shape(classes, t) {
        Shape::Static(count, inner) => {
            lemma_type_rank(classes, inner);
        },
        _ => {},
    }
}

/// The ranks of a type and of the type inside it.
pub proof fn lemma_ranks(classes: Seq<(Seq<char>, ())>, t: Seq<char>)
    ensures
        1 <= type_rank(classes, t) <= 3,
        match shape(classes, t) {
            Shape::Array(inner) => 1 <= type_rank(classes, inner) <= 3,
            Shape::Static(_, inner) => 1 <= type_rank(classes, inner) <= 3,
            _ => true,
        },
{
    lemma_type_rank(classes, t);
    match shape(classes, t) {
        Shape::Array(inner) => {
            lemma_type_rank(classes, inner);
        },
        Shape::Static(_, inner) => {
            lemma_type_rank(classes, inner);
        },
        _ => {},
    }
}

/// Tells whether values of a type start with a compiled effect.
pub fn starts_with_effect(classes: &Vec<String>, t: &[char]) -> (result: bool)
    ensures
        result == (type_rank(entries::name_keys(classes@), t@) == 2),
    decreases t@.len(),
{
    proof {
        lemma_shape(entries::name_keys(classes@), t@);
    }
    match form_of(classes, t) {
        Form::Class => is_text(t, "worldCompiledEffectInfo"),
        Form::Static(count, inner) => count > 0 && starts_with_effect(classes, inner),
        _ => false,
    }
}

/// What reading a value of a rank can reach.
pub open spec fn reach(rank: nat, start: nat, limit: nat) -> nat {
    if start > limit {
        0
    } else {
        (3 * (limit - start) + rank) as nat
    }
}

/// Where a value of a type ends at the latest: a value of a fixed size behind its
/// bytes.
pub open spec fn value_limit(t: Seq<char>, start: nat, limit: nat) -> nat {
    match red_types::type_size(t) {
        None => limit,
        Some(size) => start + size,
    }
}

/// Where the class that a value starts with ends at the latest.
pub open spec fn class_limit(
    classes: Seq<(Seq<char>, ())>,
    t: Seq<char>,
    start: nat,
    limit: nat,
) -> nat
    decreases t.len(),
{
    match shape(classes, t) {
        Shape::Static(_, inner) => {
            proof {
                lemma_shape(classes, t);
            }
            class_limit(classes, inner, start, value_limit(inner, start, limit))
        },
        _ => limit,
    }
}

/// What reading a value can reach at the place where it starts: what its class can,
/// if it starts with one.
pub open spec fn span(
    classes: Seq<(Seq<char>, ())>,
    t: Seq<char>,
    start: nat,
    limit: nat,
) -> nat {
    if nests(classes, t) {
        reach(type_rank(classes, t), start, class_limit(classes, t, start, limit))
    } else {
        1
    }
}

/// How many bytes are left behind a place.
pub open spec fn room(bytes: Seq<u8>, start: nat) -> nat {
    if start < bytes.len() {
        (bytes.len() - start) as nat
    } else {
        0
    }
}

/// Whether reading a value in a class comes to an end: the value starts behind the
/// class, or reaches less than the class does.
pub open spec fn goes_on(
    p: Package,
    class: Seq<char>,
    t: Seq<char>,
    place: nat,
    last: nat,
    start: nat,
    limit: nat,
) -> bool {
    ||| start < place && start < p.bytes.len()
    ||| place == start && span(p.classes, t, place, last) < reach(class_rank(class), start, limit)
}

/// The name of an index.
pub open spec fn name_of(p: Package, index: nat, offset: nat) -> Result<
    Seq<char>,
    redpackage::Fault,
> {
    if index < p.names.len() {
        Ok(p.names[index as int])
    } else {
        redpackage::fault(offset, "name index"@)
    }
}

/// The name whose index stands at an offset.
pub open spec fn name_there(p: Package, at: nat, offset: nat) -> Result<
    Seq<char>,
    redpackage::Fault,
> {
    match redpackage::number(p.bytes, at, 2) {
        Ok(index) => name_of(p, index, offset),
        Err(f) => Err(f),
    }
}

/// A text of given length.
pub open spec fn counted_text(bytes: Seq<u8>, start: nat, length: nat) -> Result<
    (Seq<char>, nat),
    redpackage::Fault,
> {
    if start + length > bytes.len() {
        redpackage::fault(start, "string bounds"@)
    } else {
        match redpackage::text_between(bytes, start, start + length, "string UTF-8"@) {
            Ok(content) => Ok((content, start + length)),
            Err(f) => Err(f),
        }
    }
}

/// A text behind its length.
pub open spec fn prefixed_text(bytes: Seq<u8>, start: nat) -> Result<
    (Seq<char>, nat),
    redpackage::Fault,
> {
    match redpackage::number(bytes, start, 2) {
        Ok(length) => counted_text(bytes, start + 2, length),
        Err(f) => Err(f),
    }
}

/// A text behind its length, which is a signed number.
pub open spec fn signed_text(bytes: Seq<u8>, start: nat) -> Result<
    (Seq<char>, nat),
    redpackage::Fault,
> {
    match redpackage::short(bytes, start) {
        Ok(length) => if length < 0 {
            redpackage::fault(start, "negative string length"@)
        } else {
            counted_text(bytes, start + 2, length as nat)
        },
        Err(f) => Err(f),
    }
}

fn string_bytes(bytes: &[u8], start: usize, length: usize) -> (result: Result<
    (String, usize),
    PackageError,
>)
    ensures
        match counted_text(bytes@, start as nat, length as nat) {
            Ok((content, end)) => result matches Ok(r) && r.0@ == content && r.1 == end,
            Err(f) => result matches Err(e) && e@ == f,
        },
{
    if start > bytes.len() || bytes.len() - start < length {
        return Err(malformed(start, "string bounds"));
    }
    match from_utf8(part(bytes, start, start + length)) {
        Some(content) => Ok((content, start + length)),
        None => Err(malformed(start, "string UTF-8")),
    }
}

/// Reads a text behind its length.
pub fn length_prefixed_string(bytes: &[u8], start: usize) -> (result: Result<
    (String, usize),
    PackageError,
>)
    ensures
        match prefixed_text(bytes@, start as nat) {
            Ok((content, end)) => result matches Ok(r) && r.0@ == content && r.1 == end,
            Err(f) => result matches Err(e) && e@ == f,
        },
{
    let size: usize = bytes.len();
    match u16_at(bytes, start) {
        Ok(length) => string_bytes(bytes, start + 2, length as usize),
        Err(error) => Err(error),
    }
}

/// Reads a text behind its length, which is a signed number.
pub fn signed_length_string(bytes: &[u8], start: usize) -> (result: Result<
    (String, usize),
    PackageError,
>)
    ensures
        match signed_text(bytes@, start as nat) {
            Ok((content, end)) => result matches Ok(r) && r.0@ == content && r.1 == end,
            Err(f) => result matches Err(e) && e@ == f,
        },
{
    let size: usize = bytes.len();
    match i16_at(bytes, start) {
        Ok(length) => if length < 0 {
            Err(malformed(start, "negative string length"))
        } else {
            string_bytes(bytes, start + 2, length as usize)
        },
        Err(error) => Err(error),
    }
}

/// The value of a number.
pub open spec fn number_leaf(p: Package, t: Seq<char>, start: nat, limit: nat) -> Reading {
    let b = p.bytes;
    if t == "Bool"@ || t == "Uint8"@ {
        exact(redpackage::byte_at(b, start), |n: nat| value::integer(n as int), limit)
    } else if t == "Int8"@ {
        exact(redpackage::byte_at(b, start), |n: nat| value::integer(signed8(n)), limit)
    } else if t == "Int16"@ {
        exact(
            redpackage::number(b, start, 2),
            |n: nat| value::integer(redpackage::signed16(n)),
            limit,
        )
    } else if t == "Uint16"@ {
        exact(redpackage::number(b, start, 2), |n: nat| value::integer(n as int), limit)
    } else if t == "Int32"@ {
        exact(
            redpackage::number(b, start, 4),
            |n: nat| value::integer(redpackage::signed32(n)),
            limit,
        )
    } else if t == "Uint32"@ {
        exact(redpackage::number(b, start, 4), |n: nat| value::integer(n as int), limit)
    } else if t == "Int64"@ {
        exact(
            redpackage::number(b, start, 8),
            |n: nat| value::Model::Text(number_text::signed_decimal(signed64(n))),
            limit,
        )
    } else if t == "Uint64"@ || t == "CRUID"@ || t == "CDateTime"@ {
        exact(
            redpackage::number(b, start, 8),
            |n: nat| value::Model::Text(number_text::decimal(n)),
            limit,
        )
    } else if t == "Float"@ {
        exact(redpackage::number(b, start, 4), |n: nat| value::single(n), limit)
    } else {
        exact(redpackage::number(b, start, 8), |n: nat| value::double(n), limit)
    }
}

/// Sign of a number of 64 bits.
pub fn to_signed(value: u64) -> (result: i64)
    ensures
        result == signed64(value as nat),
{
    if value < 0x8000_0000_0000_0000 {
        value as i64
    } else {
        (value as i128 - 0x1_0000_0000_0000_0000) as i64
    }
}

/// Sign of a number of 32 bits.
pub fn to_signed32(value: u32) -> (result: i32)
    ensures
        result == redpackage::signed32(value as nat),
{
    if value < 0x8000_0000 {
        value as i32
    } else {
        (value as i64 - 0x1_0000_0000) as i32
    }
}

/// Sign of a number of 8 bits.
pub fn to_signed8(value: u8) -> (result: i8)
    ensures
        result == signed8(value as nat),
{
    if value < 0x80 {
        value as i8
    } else {
        (value as i16 - 0x100) as i8
    }
}

/// The import of an index, as a reference.
pub open spec fn import_reference(p: Package, index: int, offset: nat) -> Result<
    value::Model,
    redpackage::Fault,
> {
    if index < 0 {
        Ok(reference("uint64"@, "0"@, "Default"@))
    } else if index < p.imports.len() {
        let import = p.imports[index];
        let flags = if import.soft {
            "Soft"@
        } else {
            "Default"@
        };
        match import.path {
            redpackage::PathModel::Text(path) => Ok(reference("string"@, path, flags)),
            redpackage::PathModel::Hash(hash) => Ok(
                reference("uint64"@, number_text::decimal(hash as nat), flags),
            ),
        }
    } else {
        redpackage::fault(offset, "import index"@)
    }
}

/// The pointer of a handle, and where it ends.
pub open spec fn handle_pointer(p: Package, start: nat) -> Result<(int, nat), redpackage::Fault> {
    if p.version == 2 {
        match redpackage::short(p.bytes, start) {
            Ok(n) => Ok((n, start + 2)),
            Err(f) => Err(f),
        }
    } else {
        match redpackage::number(p.bytes, start, 4) {
            Ok(n) => Ok((redpackage::signed32(n), start + 4)),
            Err(f) => Err(f),
        }
    }
}

/// Names with a comma and a space between them.
pub open spec fn joined(names: Seq<Seq<char>>) -> Seq<char>
    decreases names.len(),
{
    if names.len() == 0 {
        Seq::empty()
    } else if names.len() == 1 {
        names[0]
    } else {
        joined(names.drop_last()) + ", "@ + names.last()
    }
}

/// Joins names with a comma and a space between them.
pub fn join_names(names: &Vec<String>) -> (result: String)
    ensures
        result@ == joined(redpackage::name_texts(names@)),
{
    let ghost all = redpackage::name_texts(names@);
    let mut text: String = String::new();
    let mut i: usize = 0;
    assert(text@ =~= joined(all.subrange(0, 0)));
    while i < names.len()
        invariant
            i <= names@.len(),
            all == redpackage::name_texts(names@),
            text@ == joined(all.subrange(0, i as int)),
        decreases names@.len() - i,
    {
        let ghost next = all.subrange(0, i + 1);
        assert(next.drop_last() =~= all.subrange(0, i as int));
        assert(next.last() == names@[i as int]@);
        if i > 0 {
            push_text(&mut text, ", ");
        }
        push_text(&mut text, names[i].as_str());
        assert(text@ =~= joined(next));
        i = i + 1;
    }
    assert(all.subrange(0, i as int) =~= all);
    text
}

/// The names of `left` indices from `at` on, behind those found.
pub open spec fn flag_names(
    p: Package,
    at: nat,
    left: nat,
    offset: nat,
    found: Seq<Seq<char>>,
) -> Result<Seq<Seq<char>>, redpackage::Fault>
    decreases left,
{
    if left == 0 {
        Ok(found)
    } else {
        match name_there(p, at, offset) {
            Err(f) => Err(f),
            Ok(name) => flag_names(p, at + 2, (left - 1) as nat, offset, found.push(name)),
        }
    }
}

/// The value of a type that no other rule names: an enumeration of two bytes,
/// or a bit field of counted names.
pub open spec fn other_leaf(p: Package, t: Seq<char>, start: nat, limit: nat) -> Reading {
    if limit == start + 2 {
        match name_there(p, start, start) {
            Ok(name) => Ok((value::Model::Text(name), limit)),
            Err(f) => Err(f),
        }
    } else {
        match redpackage::byte_at(p.bytes, start) {
            Err(f) => Err(f),
            Ok(count) => if start + 1 + count * 2 == limit {
                match flag_names(p, start + 1, count, start, Seq::empty()) {
                    Err(f) => Err(f),
                    Ok(names) => Ok((value::Model::Text(joined(names)), limit)),
                }
            } else {
                Err(redpackage::Fault::Unsupported(t))
            },
        }
    }
}

/// A buffer in the package.
pub open spec fn buffer_leaf(p: Package, start: nat, limit: nat) -> Reading {
    match redpackage::number(p.bytes, start, 4) {
        Err(f) => Err(f),
        Ok(length) => if length == 0x8000_0000 {
            Ok((inner_buffer(""@), start + 4))
        } else if length > 0x8000_0000 {
            Err(redpackage::Fault::Unsupported("package external DataBuffer"@))
        } else if start + 4 + length > limit || start + 4 + length > p.bytes.len() {
            redpackage::fault(start, "buffer bounds"@)
        } else {
            let end = start + 4 + length;
            Ok(
                (
                    inner_buffer(
                        text::base64_text(p.bytes.subrange(start as int + 4, end as int)),
                    ),
                    end,
                ),
            )
        },
    }
}

/// The value of a type that holds no other values.
pub open spec fn leaf(p: Package, t: Seq<char>, start: nat, limit: nat) -> Reading {
    if numeric(t) {
        number_leaf(p, t, start, limit)
    } else if t == "CName"@ {
        match name_there(p, start, start) {
            Ok(name) => Ok((stored_text("CName"@, name), limit)),
            Err(f) => Err(f),
        }
    } else if t == "String"@ || t == "CString"@ {
        match prefixed_text(p.bytes, start) {
            Ok((content, end)) => Ok((value::Model::Text(content), end)),
            Err(f) => Err(f),
        }
    } else if t == "NodeRef"@ {
        match signed_text(p.bytes, start) {
            Ok((content, end)) => Ok((stored_text("NodeRef"@, content), end)),
            Err(f) => Err(f),
        }
    } else if t == "TweakDBID"@ {
        if p.version == 4 {
            exact(
                redpackage::number(p.bytes, start, 8),
                |n: nat| stored_number("TweakDBID"@, n),
                limit,
            )
        } else {
            match signed_text(p.bytes, start) {
                Ok((content, end)) => Ok((stored_text("TweakDBID"@, content), end)),
                Err(f) => Err(f),
            }
        }
    } else if t == "LocalizationString"@ {
        match redpackage::number(p.bytes, start, 8) {
            Err(f) => Err(f),
            Ok(unknown) => match prefixed_text(p.bytes, start + 8) {
                Ok((content, end)) => Ok((localized(number_text::decimal(unknown), content), end)),
                Err(f) => Err(f),
            },
        }
    } else if t == "DataBuffer"@ {
        buffer_leaf(p, start, limit)
    } else if red_types::is_handle(t) {
        match handle_pointer(p, start) {
            Err(f) => Err(f),
            Ok((n, end)) => if n < 0 {
                Ok((value::Model::Null, end))
            } else {
                Ok((pointer("$package_handle"@, n), end))
            },
        }
    } else if red_types::is_reference(t) {
        match redpackage::short(p.bytes, start) {
            Err(f) => Err(f),
            Ok(index) => match import_reference(p, index, start) {
                Ok(m) => Ok((m, start + 2)),
                Err(f) => Err(f),
            },
        }
    } else {
        other_leaf(p, t, start, limit)
    }
}

impl<'a> Reader<'a> {
    /// The name of an index.
    pub fn name(&self, index: usize, offset: usize) -> (result: Result<&'a str, PackageError>)
        ensures
            match name_of(self@, index as nat, offset as nat) {
                Ok(name) => result matches Ok(r) && r@ == name,
                Err(f) => result matches Err(e) && e@ == f,
            },
    {
        if index < self.names.len() {
            assert(self@.names[index as int] == self.names@[index as int]@);
            Ok(self.names[index].as_str())
        } else {
            Err(malformed(offset, "name index"))
        }
    }

    /// The name whose index stands at an offset.
    pub fn name_there(&self, at: usize, offset: usize) -> (result: Result<&'a str, PackageError>)
        ensures
            match name_there(self@, at as nat, offset as nat) {
                Ok(name) => result matches Ok(r) && r@ == name,
                Err(f) => result matches Err(e) && e@ == f,
            },
            result is Ok ==> at + 2 <= self.bytes@.len(),
    {
        match u16_at(self.bytes, at) {
            Ok(index) => self.name(index as usize, offset),
            Err(error) => Err(error),
        }
    }

    fn read_number(&self, t: &[char], start: usize, limit: usize) -> (result: Result<
        (Value, usize),
        PackageError,
    >)
        requires
            numeric(t@),
        ensures
            match number_leaf(self@, t@, start as nat, limit as nat) {
                Ok((m, end)) => result matches Ok(r) && r.0@ == m && r.1 == end,
                Err(f) => result matches Err(e) && e@ == f,
            },
    {
        let bytes: &[u8] = self.bytes;
        let value: Value = if is_text(t, "Bool") || is_text(t, "Uint8") {
            match byte(bytes, start) {
                Ok(n) => Value::integer(n as i128),
                Err(error) => return Err(error),
            }
        } else if is_text(t, "Int8") {
            match byte(bytes, start) {
                Ok(n) => Value::integer(to_signed8(n) as i128),
                Err(error) => return Err(error),
            }
        } else if is_text(t, "Int16") {
            match i16_at(bytes, start) {
                Ok(n) => Value::integer(n as i128),
                Err(error) => return Err(error),
            }
        } else if is_text(t, "Uint16") {
            match u16_at(bytes, start) {
                Ok(n) => Value::integer(n as i128),
                Err(error) => return Err(error),
            }
        } else if is_text(t, "Int32") {
            match u32_at(bytes, start) {
                Ok(n) => Value::integer(to_signed32(n) as i128),
                Err(error) => return Err(error),
            }
        } else if is_text(t, "Uint32") {
            match u32_at(bytes, start) {
                Ok(n) => Value::integer(n as i128),
                Err(error) => return Err(error),
            }
        } else if is_text(t, "Int64") {
            match u64_at(bytes, start) {
                Ok(n) => Value::Text(signed_decimal_text(to_signed(n))),
                Err(error) => return Err(error),
            }
        } else if is_text(t, "Uint64") || is_text(t, "CRUID") || is_text(t, "CDateTime") {
            match u64_at(bytes, start) {
                Ok(n) => Value::Text(decimal_text(n)),
                Err(error) => return Err(error),
            }
        } else if is_text(t, "Float") {
            match u32_at(bytes, start) {
                Ok(n) => Value::single(n),
                Err(error) => return Err(error),
            }
        } else {
            match u64_at(bytes, start) {
                Ok(n) => Value::double(n),
                Err(error) => return Err(error),
            }
        };
        Ok((value, limit))
    }

    fn read_flags(&self, from: usize, count: usize, offset: usize) -> (result: Result<
        Vec<String>,
        PackageError,
    >)
        ensures
            match flag_names(self@, from as nat, count as nat, offset as nat, Seq::empty()) {
                Ok(names) => result matches Ok(r) && redpackage::name_texts(r@) == names,
                Err(f) => result matches Err(e) && e@ == f,
            },
    {
        let ghost wanted = flag_names(
            self@,
            from as nat,
            count as nat,
            offset as nat,
            Seq::empty(),
        );
        let size: usize = self.bytes.len();
        let mut names: Vec<String> = Vec::new();
        let mut at: usize = from;
        let mut left: usize = count;
        assert(redpackage::name_texts(names@) =~= Seq::empty());
        while left > 0
            invariant
                size == self.bytes@.len(),
                wanted == flag_names(
                    self@,
                    from as nat,
                    count as nat,
                    offset as nat,
                    Seq::empty(),
                ),
                wanted == flag_names(
                    self@,
                    at as nat,
                    left as nat,
                    offset as nat,
                    redpackage::name_texts(names@),
                ),
            decreases left,
        {
            let name: &str = match self.name_there(at, offset) {
                Ok(name) => name,
                Err(error) => return Err(error),
            };
            let copy: String = copy_text(name);
            assert(redpackage::name_texts(names@.push(copy)) =~= redpackage::name_texts(
                names@,
            ).push(name@));
            names.push(copy);
            at = at + 2;
            left = left - 1;
        }
        Ok(names)
    }

    fn read_other(&self, t: &[char], start: usize, limit: usize) -> (result: Result<
        (Value, usize),
        PackageError,
    >)
        ensures
            match other_leaf(self@, t@, start as nat, limit as nat) {
                Ok((m, end)) => result matches Ok(r) && r.0@ == m && r.1 == end,
                Err(f) => result matches Err(e) && e@ == f,
            },
    {
        if limit >= 2 && limit - 2 == start {
            return match self.name_there(start, start) {
                Ok(name) => Ok((Value::text(name), limit)),
                Err(error) => Err(error),
            };
        }
        let count: u8 = match byte(self.bytes, start) {
            Ok(count) => count,
            Err(error) => return Err(error),
        };
        if limit > start && limit - start - 1 == count as usize * 2 {
            match self.read_flags(start + 1, count as usize, start) {
                Ok(names) => Ok((Value::Text(join_names(&names)), limit)),
                Err(error) => Err(error),
            }
        } else {
            Err(unsupported(text_of(t).as_str()))
        }
    }

    fn read_buffer(&self, start: usize, limit: usize) -> (result: Result<
        (Value, usize),
        PackageError,
    >)
        ensures
            match buffer_leaf(self@, start as nat, limit as nat) {
                Ok((m, end)) => result matches Ok(r) && r.0@ == m && r.1 == end,
                Err(f) => result matches Err(e) && e@ == f,
            },
    {
        let size: usize = self.bytes.len();
        let length: u32 = match u32_at(self.bytes, start) {
            Ok(length) => length,
            Err(error) => return Err(error),
        };
        if length == 0x8000_0000 {
            return Ok((new_inner_buffer(""), start + 4));
        }
        if length > 0x8000_0000 {
            return Err(unsupported("package external DataBuffer"));
        }
        if size - (start + 4) < length as usize || start + 4 + length as usize > limit {
            return Err(malformed(start, "buffer bounds"));
        }
        let end: usize = start + 4 + length as usize;
        let content: String = encode_base64(part(self.bytes, start + 4, end));
        Ok((new_inner_buffer(content.as_str()), end))
    }

    fn read_reference(&self, start: usize) -> (result: Result<(Value, usize), PackageError>)
        ensures
            match redpackage::short(self@.bytes, start as nat) {
                Err(f) => result matches Err(e) && e@ == f,
                Ok(index) => match import_reference(self@, index, start as nat) {
                    Ok(m) => result matches Ok(r) && r.0@ == m && r.1 == start + 2,
                    Err(f) => result matches Err(e) && e@ == f,
                },
            },
    {
        let size: usize = self.bytes.len();
        let index: i16 = match i16_at(self.bytes, start) {
            Ok(index) => index,
            Err(error) => return Err(error),
        };
        if index < 0 {
            return Ok((new_reference("uint64", "0", "Default"), start + 2));
        }
        let at: usize = index as usize;
        if at >= self.imports.len() {
            return Err(malformed(start, "import index"));
        }
        assert(self@.imports[at as int] == self.imports@[at as int]@);
        let flags: &str = if self.imports[at].soft {
            "Soft"
        } else {
            "Default"
        };
        match &self.imports[at].path {
            PackagePath::Text(path) => Ok(
                (new_reference("string", path.as_str(), flags), start + 2),
            ),
            PackagePath::Hash(hash) => Ok(
                (new_reference("uint64", decimal_text(*hash).as_str(), flags), start + 2),
            ),
        }
    }

    /// Reads the pointer of a handle.
    pub fn read_pointer(&self, start: usize) -> (result: Result<(i32, usize), PackageError>)
        ensures
            match handle_pointer(self@, start as nat) {
                Ok((n, end)) => result matches Ok(r) && r.0 == n && r.1 == end,
                Err(f) => result matches Err(e) && e@ == f,
            },
    {
        let size: usize = self.bytes.len();
        if self.version == 2 {
            match i16_at(self.bytes, start) {
                Ok(n) => Ok((n as i32, start + 2)),
                Err(error) => Err(error),
            }
        } else {
            match u32_at(self.bytes, start) {
                Ok(n) => Ok((to_signed32(n), start + 4)),
                Err(error) => Err(error),
            }
        }
    }

    /// Reads a value that holds no other values.
    pub fn read_leaf(&self, t: &[char], start: usize, limit: usize) -> (result: Result<
        (Value, usize),
        PackageError,
    >)
        ensures
            match leaf(self@, t@, start as nat, limit as nat) {
                Ok((m, end)) => result matches Ok(r) && r.0@ == m && r.1 == end,
                Err(f) => result matches Err(e) && e@ == f,
            },
    {
        let size: usize = self.bytes.len();
        if is_numeric(t) {
            return self.read_number(t, start, limit);
        }
        if is_text(t, "CName") {
            return match self.name_there(start, start) {
                Ok(name) => Ok((storage_string("CName", name), limit)),
                Err(error) => Err(error),
            };
        }
        if is_text(t, "String") || is_text(t, "CString") {
            return match length_prefixed_string(self.bytes, start) {
                Ok((content, end)) => Ok((Value::Text(content), end)),
                Err(error) => Err(error),
            };
        }
        if is_text(t, "NodeRef") {
            return match signed_length_string(self.bytes, start) {
                Ok((content, end)) => Ok((storage_string("NodeRef", content.as_str()), end)),
                Err(error) => Err(error),
            };
        }
        if is_text(t, "TweakDBID") {
            if self.version == 4 {
                return match u64_at(self.bytes, start) {
                    Ok(n) => Ok((storage_u64("TweakDBID", n), limit)),
                    Err(error) => Err(error),
                };
            }
            return match signed_length_string(self.bytes, start) {
                Ok((content, end)) => Ok((storage_string("TweakDBID", content.as_str()), end)),
                Err(error) => Err(error),
            };
        }
        if is_text(t, "LocalizationString") {
            let unknown: u64 = match u64_at(self.bytes, start) {
                Ok(n) => n,
                Err(error) => return Err(error),
            };
            return match length_prefixed_string(self.bytes, start + 8) {
                Ok((content, end)) => Ok(
                    (new_localized(decimal_text(unknown).as_str(), content.as_str()), end),
                ),
                Err(error) => Err(error),
            };
        }
        if is_text(t, "DataBuffer") {
            return self.read_buffer(start, limit);
        }
        if names_handle(t) {
            return match self.read_pointer(start) {
                Ok((n, end)) => if n < 0 {
                    Ok((Value::Null, end))
                } else {
                    Ok((new_pointer("$package_handle", n as i128), end))
                },
                Err(error) => Err(error),
            };
        }
        if names_reference(t) {
            return self.read_reference(start);
        }
        self.read_other(t, start, limit)
    }
}

/// The fields that `left` descriptors from `at` on name, behind those found:
/// the indices of name and type, and where the value starts.
pub open spec fn fields_from(
    bytes: Seq<u8>,
    start: nat,
    at: nat,
    left: nat,
    found: Seq<(nat, nat, nat)>,
) -> Result<Seq<(nat, nat, nat)>, redpackage::Fault>
    decreases left,
{
    if left == 0 {
        Ok(found)
    } else {
        match redpackage::number(bytes, at, 2) {
            Err(f) => Err(f),
            Ok(name) => match redpackage::number(bytes, at + 2, 2) {
                Err(f) => Err(f),
                Ok(kind) => match redpackage::number(bytes, at + 4, 4) {
                    Err(f) => Err(f),
                    Ok(relative) => match redpackage::moved(start, relative) {
                        Err(f) => Err(f),
                        Ok(place) => fields_from(
                            bytes,
                            start,
                            at + 8,
                            (left - 1) as nat,
                            found.push((name, kind, place)),
                        ),
                    },
                },
            },
        }
    }
}

/// The fields of a class.
pub open spec fn fields_of(bytes: Seq<u8>, start: nat) -> Result<
    Seq<(nat, nat, nat)>,
    redpackage::Fault,
> {
    match redpackage::number(bytes, start, 2) {
        Err(f) => Err(f),
        Ok(count) => fields_from(bytes, start, start + 2, count, Seq::empty()),
    }
}

/// Where the field of an index ends: where the next starts, or at the limit.
pub open spec fn field_limit(fields: Seq<(nat, nat, nat)>, i: nat, limit: nat) -> nat {
    if i + 1 < fields.len() {
        fields[i as int + 1].2
    } else {
        limit
    }
}

/// The numbers of fields.
pub open spec fn field_numbers(fields: Seq<(u16, u16, usize)>) -> Seq<(nat, nat, nat)> {
    fields.map_values(|f: (u16, u16, usize)| (f.0 as nat, f.1 as nat, f.2 as nat))
}

/// Fields start no earlier than their class.
pub proof fn lemma_fields_from(
    bytes: Seq<u8>,
    start: nat,
    at: nat,
    left: nat,
    found: Seq<(nat, nat, nat)>,
)
    requires
        forall|i: int| 0 <= i < found.len() ==> (#[trigger] found[i]).2 >= start,
    ensures
        fields_from(bytes, start, at, left, found) matches Ok(fields) ==> forall|i: int|
            0 <= i < fields.len() ==> (#[trigger] fields[i]).2 >= start,
        fields_from(bytes, start, at, left, found) matches Ok(fields) ==> fields.len()
            == found.len() + left,
    decreases left,
{
    if left > 0 {
        match redpackage::number(bytes, at, 2) {
            Err(_) => {},
            Ok(name) => match redpackage::number(bytes, at + 2, 2) {
                Err(_) => {},
                Ok(kind) => match redpackage::number(bytes, at + 4, 4) {
                    Err(_) => {},
                    Ok(relative) => match redpackage::moved(start, relative) {
                        Err(_) => {},
                        Ok(place) => {
                            lemma_fields_from(
                                bytes,
                                start,
                                at + 8,
                                (left - 1) as nat,
                                found.push((name, kind, place)),
                            );
                        },
                    },
                },
            },
        }
    }
}

/// Reads the fields of a class.
#[verifier::loop_isolation(false)]
pub fn read_fields(bytes: &[u8], start: usize) -> (result: Result<
    Vec<(u16, u16, usize)>,
    PackageError,
>)
    ensures
        match fields_of(bytes@, start as nat) {
            Ok(fields) => result matches Ok(r) && field_numbers(r@) == fields && start + 2
                + fields.len() * 8 <= bytes@.len() && fields.len() <= 0xffff && forall|i: int|
                0 <= i < fields.len() ==> (#[trigger] fields[i]).2 >= start,
            Err(f) => result matches Err(e) && e@ == f,
        },
{
    let size: usize = bytes.len();
    let count: u16 = match u16_at(bytes, start) {
        Ok(count) => count,
        Err(error) => return Err(error),
    };
    let ghost wanted = fields_from(
        bytes@,
        start as nat,
        start as nat + 2,
        count as nat,
        Seq::empty(),
    );
    proof {
        lemma_fields_from(bytes@, start as nat, start as nat + 2, count as nat, Seq::empty());
    }
    let mut fields: Vec<(u16, u16, usize)> = Vec::new();
    let mut at: usize = start + 2;
    let mut left: u16 = count;
    assert(field_numbers(fields@) =~= Seq::empty());
    while left > 0
        invariant
            at == start + 2 + (count - left) * 8,
            at <= size,
            left <= count,
            wanted == fields_from(
                bytes@,
                start as nat,
                at as nat,
                left as nat,
                field_numbers(fields@),
            ),
        decreases left,
    {
        let name: u16 = match u16_at(bytes, at) {
            Ok(value) => value,
            Err(error) => return Err(error),
        };
        let kind: u16 = match u16_at(bytes, at + 2) {
            Ok(value) => value,
            Err(error) => return Err(error),
        };
        let relative: u32 = match u32_at(bytes, at + 4) {
            Ok(value) => value,
            Err(error) => return Err(error),
        };
        let place: usize = match add_offset(start, relative) {
            Ok(value) => value,
            Err(error) => return Err(error),
        };
        let field: (u16, u16, usize) = (name, kind, place);
        assert(field_numbers(fields@.push(field)) =~= field_numbers(fields@).push(
            (name as nat, kind as nat, place as nat),
        ));
        fields.push(field);
        at = at + 8;
        left = left - 1;
    }
    Ok(fields)
}

} // verus!
