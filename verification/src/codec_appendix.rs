//! What stands behind the properties of some classes of CR2W resources.

use crate::binary;
use crate::codec_reader;
use crate::codec_reader::{
    malformed, read_string, u32_at, u64_at, vlq, CodecError, Decoder, Fault, Resource,
};
use crate::cr2w::Cr2wBuffer;
use crate::entries;
use crate::number_text;
use crate::number_text::decimal_text;
use crate::redpackage;
use crate::redpackage_reader;
use crate::redpackage_reader::{new_pointer, storage_string, storage_u64, to_signed32};
use crate::value;
use crate::value::{set_entry, Value};
use vstd::prelude::*;

verus! {

/// The number of some bytes, where they are there.
pub open spec fn bits(bytes: Seq<u8>, at: nat, count: nat) -> nat {
    match binary::number_at(bytes, at, count) {
        Some(value) => value,
        None => 0,
    }
}

/// A float of single precision.
pub open spec fn single_at(bytes: Seq<u8>, at: nat) -> value::Model {
    value::single(bits(bytes, at, 4))
}

/// An object with a type and nothing else yet.
pub open spec fn typed(t: Seq<char>) -> Seq<(Seq<char>, value::Model)> {
    entries::put(Seq::empty(), "$type"@, value::Model::Text(t))
}

/// Three coordinates behind what an object holds.
pub open spec fn with_xyz(
    object: Seq<(Seq<char>, value::Model)>,
    bytes: Seq<u8>,
    at: nat,
) -> Seq<(Seq<char>, value::Model)> {
    entries::put(
        entries::put(
            entries::put(object, "X"@, single_at(bytes, at)),
            "Y"@,
            single_at(bytes, at + 4),
        ),
        "Z"@,
        single_at(bytes, at + 8),
    )
}

/// Three coordinates.
pub open spec fn vector3(bytes: Seq<u8>, at: nat) -> value::Model {
    value::Model::Object(with_xyz(typed("Vector3"@), bytes, at))
}

/// Three coordinates and a fourth.
pub open spec fn vector4(bytes: Seq<u8>, at: nat, w: value::Model) -> value::Model {
    value::Model::Object(with_xyz(entries::put(typed("Vector4"@), "W"@, w), bytes, at))
}

/// A rotation.
pub open spec fn quaternion(bytes: Seq<u8>, at: nat) -> value::Model {
    value::Model::Object(
        entries::put(
            entries::put(
                entries::put(
                    entries::put(typed("Quaternion"@), "i"@, single_at(bytes, at)),
                    "j"@,
                    single_at(bytes, at + 4),
                ),
                "k"@,
                single_at(bytes, at + 8),
            ),
            "r"@,
            single_at(bytes, at + 12),
        ),
    )
}

/// A box.
pub open spec fn bounds(bytes: Seq<u8>, at: nat) -> value::Model {
    value::Model::Object(
        entries::put(
            entries::put(typed("Box"@), "Min"@, vector4(bytes, at, value::double(0))),
            "Max"@,
            vector4(bytes, at + 12, value::double(0)),
        ),
    )
}

/// A number of 16 bits.
pub open spec fn word_at(bytes: Seq<u8>, at: nat) -> value::Model {
    value::integer(bits(bytes, at, 2) as int)
}

/// A number of 64 bits, in a text.
pub open spec fn long_at(bytes: Seq<u8>, at: nat) -> value::Model {
    value::Model::Text(number_text::decimal(bits(bytes, at, 8)))
}

/// The data of a prefab.
pub open spec fn prefab(bytes: Seq<u8>, at: nat) -> value::Model {
    value::Model::Object(
        entries::put(
            entries::put(
                Seq::empty(),
                "DepotPath"@,
                redpackage_reader::stored_number("ResourcePath"@, bits(bytes, at, 8)),
            ),
            "Flags"@,
            value::Model::Text("Default"@),
        ),
    )
}

/// Where a node stands.
pub open spec fn node_place(bytes: Seq<u8>, at: nat) -> Seq<(Seq<char>, value::Model)> {
    entries::put(
        entries::put(
            entries::put(
                entries::put(
                    entries::put(
                        entries::put(
                            entries::put(Seq::empty(), "Id"@, long_at(bytes, at + 80)),
                            "NodeIndex"@,
                            word_at(bytes, at + 120),
                        ),
                        "Position"@,
                        vector4(bytes, at, single_at(bytes, at + 12)),
                    ),
                    "Orientation"@,
                    quaternion(bytes, at + 16),
                ),
                "Scale"@,
                vector3(bytes, at + 32),
            ),
            "Pivot"@,
            vector3(bytes, at + 44),
        ),
        "Bounds"@,
        bounds(bytes, at + 56),
    )
}

/// A node.
pub open spec fn node(bytes: Seq<u8>, at: nat) -> value::Model {
    value::Model::Object(
        entries::put(
            entries::put(
                entries::put(
                    entries::put(
                        entries::put(
                            entries::put(
                                entries::put(
                                    entries::put(
                                        entries::put(
                                            entries::put(
                                                node_place(bytes, at),
                                                "QuestPrefabRefHash"@,
                                                redpackage_reader::stored_number(
                                                    "NodeRef"@,
                                                    bits(bytes, at + 88, 8),
                                                ),
                                            ),
                                            "UkHash1"@,
                                            redpackage_reader::stored_number(
                                                "NodeRef"@,
                                                bits(bytes, at + 96, 8),
                                            ),
                                        ),
                                        "CookedPrefabData"@,
                                        prefab(bytes, at + 104),
                                    ),
                                    "MaxStreamingDistance"@,
                                    single_at(bytes, at + 112),
                                ),
                                "UkFloat1"@,
                                single_at(bytes, at + 116),
                            ),
                            "Uk10"@,
                            word_at(bytes, at + 122),
                        ),
                        "Uk11"@,
                        word_at(bytes, at + 124),
                    ),
                    "Uk12"@,
                    word_at(bytes, at + 126),
                ),
                "Uk13"@,
                long_at(bytes, at + 128),
            ),
            "Uk14"@,
            long_at(bytes, at + 136),
        ),
    )
}

/// The first `n` nodes.
pub open spec fn nodes(bytes: Seq<u8>, n: nat) -> Seq<value::Model> {
    Seq::new(n, |i: int| node(bytes, (i * 144) as nat))
}

/// The type of a buffer of nodes.
pub open spec fn node_buffer_type() -> Seq<char> {
    "WolvenKit.RED4.Archive.Buffer.worldNodeDataBuffer, WolvenKit.RED4, Version=8.17.4.0, Culture=neutral, PublicKeyToken=null"@
}

/// A buffer that was decoded.
pub open spec fn decoded_buffer(index: nat, flags: nat, t: Seq<char>, data: value::Model) -> value::Model {
    value::Model::Object(
        entries::put(
            entries::put(
                entries::put(
                    entries::put(
                        Seq::empty(),
                        "BufferId"@,
                        value::Model::Text(number_text::decimal(index)),
                    ),
                    "Flags"@,
                    value::integer(flags as int),
                ),
                "Type"@,
                value::Model::Text(t),
            ),
            "Data"@,
            data,
        ),
    )
}

/// A buffer of nodes.
pub open spec fn node_buffer(r: Resource, offset: nat) -> Result<value::Model, Fault> {
    match codec_reader::number(r.bytes, offset, 4) {
        Err(f) => Err(f),
        Ok(encoded) => if encoded <= 0x8000_0000 {
            codec_reader::fault(offset, "world node buffer pointer"@)
        } else {
            let index = (encoded - 0x8000_0001) as nat;
            match codec_reader::buffer_of(r, index, offset, false) {
                Err(f) => Err(f),
                Ok((buffer, bytes, _)) => if bytes.len() % 144 != 0 {
                    codec_reader::fault(offset, "world node buffer size"@)
                } else {
                    Ok(
                        decoded_buffer(
                            index,
                            buffer.flags as nat,
                            node_buffer_type(),
                            value::Model::Array(nodes(bytes, bytes.len() / 144)),
                        ),
                    )
                },
            }
        },
    }
}

fn get_u16(bytes: &[u8], at: usize) -> (result: u16)
    ensures
        result == bits(bytes@, at as nat, 2),
{
    match crate::binary::read_u16_le(bytes, at) {
        Some(value) => value,
        None => 0,
    }
}

fn get_u32(bytes: &[u8], at: usize) -> (result: u32)
    ensures
        result == bits(bytes@, at as nat, 4),
{
    match crate::binary::read_u32_le(bytes, at) {
        Some(value) => value,
        None => 0,
    }
}

fn get_u64(bytes: &[u8], at: usize) -> (result: u64)
    ensures
        result == bits(bytes@, at as nat, 8),
{
    match crate::binary::read_u64_le(bytes, at) {
        Some(value) => value,
        None => 0,
    }
}

/// Reads a float of single precision.
pub fn get_single(bytes: &[u8], at: usize) -> (result: Value)
    ensures
        result@ == single_at(bytes@, at as nat),
{
    Value::single(get_u32(bytes, at))
}

/// The fields of an object with a type.
pub fn typed_fields(t: &str) -> (result: Vec<(String, Value)>)
    ensures
        value::entry_models(result@) == typed(t@),
{
    let mut fields: Vec<(String, Value)> = Vec::new();
    set_entry(&mut fields, "$type", Value::text(t));
    fields
}

/// Sets three coordinates.
pub fn set_xyz(fields: &mut Vec<(String, Value)>, bytes: &[u8], at: usize)
    requires
        at + 8 <= usize::MAX,
    ensures
        value::entry_models(final(fields)@) == with_xyz(
            value::entry_models(old(fields)@),
            bytes@,
            at as nat,
        ),
{
    set_entry(fields, "X", get_single(bytes, at));
    set_entry(fields, "Y", get_single(bytes, at + 4));
    set_entry(fields, "Z", get_single(bytes, at + 8));
}

fn read_vector3(bytes: &[u8], at: usize) -> (result: Value)
    requires
        at + 16 <= usize::MAX,
    ensures
        result@ == vector3(bytes@, at as nat),
{
    let mut fields: Vec<(String, Value)> = typed_fields("Vector3");
    set_xyz(&mut fields, bytes, at);
    Value::Object(fields)
}

fn read_vector4(bytes: &[u8], at: usize, w: Value) -> (result: Value)
    requires
        at + 16 <= usize::MAX,
    ensures
        result@ == vector4(bytes@, at as nat, w@),
{
    let mut fields: Vec<(String, Value)> = typed_fields("Vector4");
    set_entry(&mut fields, "W", w);
    set_xyz(&mut fields, bytes, at);
    Value::Object(fields)
}

fn read_quaternion(bytes: &[u8], at: usize) -> (result: Value)
    requires
        at + 16 <= usize::MAX,
    ensures
        result@ == quaternion(bytes@, at as nat),
{
    let mut fields: Vec<(String, Value)> = typed_fields("Quaternion");
    set_entry(&mut fields, "i", get_single(bytes, at));
    set_entry(&mut fields, "j", get_single(bytes, at + 4));
    set_entry(&mut fields, "k", get_single(bytes, at + 8));
    set_entry(&mut fields, "r", get_single(bytes, at + 12));
    Value::Object(fields)
}

fn read_bounds(bytes: &[u8], at: usize) -> (result: Value)
    requires
        at + 32 <= usize::MAX,
    ensures
        result@ == bounds(bytes@, at as nat),
{
    let mut fields: Vec<(String, Value)> = typed_fields("Box");
    set_entry(&mut fields, "Min", read_vector4(bytes, at, Value::double(0)));
    set_entry(&mut fields, "Max", read_vector4(bytes, at + 12, Value::double(0)));
    Value::Object(fields)
}

fn read_prefab(bytes: &[u8], at: usize) -> (result: Value)
    ensures
        result@ == prefab(bytes@, at as nat),
{
    let mut fields: Vec<(String, Value)> = Vec::new();
    set_entry(&mut fields, "DepotPath", storage_u64("ResourcePath", get_u64(bytes, at)));
    set_entry(&mut fields, "Flags", Value::text("Default"));
    Value::Object(fields)
}

fn read_node_place(bytes: &[u8], at: usize) -> (result: Vec<(String, Value)>)
    requires
        at + 144 <= bytes@.len() <= usize::MAX,
    ensures
        value::entry_models(result@) == node_place(bytes@, at as nat),
{
    let mut fields: Vec<(String, Value)> = Vec::new();
    set_entry(&mut fields, "Id", Value::Text(decimal_text(get_u64(bytes, at + 80))));
    set_entry(&mut fields, "NodeIndex", Value::integer(get_u16(bytes, at + 120) as i128));
    let w: Value = get_single(bytes, at + 12);
    set_entry(&mut fields, "Position", read_vector4(bytes, at, w));
    set_entry(&mut fields, "Orientation", read_quaternion(bytes, at + 16));
    set_entry(&mut fields, "Scale", read_vector3(bytes, at + 32));
    set_entry(&mut fields, "Pivot", read_vector3(bytes, at + 44));
    set_entry(&mut fields, "Bounds", read_bounds(bytes, at + 56));
    fields
}

fn read_node(bytes: &[u8], at: usize) -> (result: Value)
    requires
        at + 144 <= bytes@.len() <= usize::MAX,
    ensures
        result@ == node(bytes@, at as nat),
{
    let mut fields: Vec<(String, Value)> = read_node_place(bytes, at);
    set_entry(&mut fields, "QuestPrefabRefHash", storage_u64("NodeRef", get_u64(bytes, at + 88)));
    set_entry(&mut fields, "UkHash1", storage_u64("NodeRef", get_u64(bytes, at + 96)));
    set_entry(&mut fields, "CookedPrefabData", read_prefab(bytes, at + 104));
    set_entry(&mut fields, "MaxStreamingDistance", get_single(bytes, at + 112));
    set_entry(&mut fields, "UkFloat1", get_single(bytes, at + 116));
    set_entry(&mut fields, "Uk10", Value::integer(get_u16(bytes, at + 122) as i128));
    set_entry(&mut fields, "Uk11", Value::integer(get_u16(bytes, at + 124) as i128));
    set_entry(&mut fields, "Uk12", Value::integer(get_u16(bytes, at + 126) as i128));
    set_entry(&mut fields, "Uk13", Value::Text(decimal_text(get_u64(bytes, at + 128))));
    set_entry(&mut fields, "Uk14", Value::Text(decimal_text(get_u64(bytes, at + 136))));
    Value::Object(fields)
}

/// Makes a buffer that was decoded.
pub fn new_decoded_buffer(index: usize, flags: u32, t: &str, data: Value) -> (result: Value)
    ensures
        result@ == decoded_buffer(index as nat, flags as nat, t@, data@),
{
    let mut fields: Vec<(String, Value)> = Vec::new();
    set_entry(&mut fields, "BufferId", Value::Text(decimal_text(index as u64)));
    set_entry(&mut fields, "Flags", Value::integer(flags as i128));
    set_entry(&mut fields, "Type", Value::text(t));
    set_entry(&mut fields, "Data", data);
    Value::Object(fields)
}

fn read_nodes(bytes: &[u8]) -> (result: Vec<Value>)
    requires
        bytes@.len() % 144 == 0,
    ensures
        value::models(result@) == nodes(bytes@, bytes@.len() / 144),
{
    let size: usize = bytes.len();
    let n: usize = size / 144;
    let ghost wanted = nodes(bytes@, n as nat);
    let mut list: Vec<Value> = Vec::new();
    assert(value::models(list@) =~= wanted.subrange(0, 0));
    let mut i: usize = 0;
    while i < n
        invariant
            size == bytes@.len(),
            n * 144 == size,
            i <= n,
            wanted == nodes(bytes@, n as nat),
            value::models(list@) == wanted.subrange(0, i as int),
        decreases n - i,
    {
        let item: Value = read_node(bytes, i * 144);
        proof {
            value::lemma_models_push(list@, item);
            assert(wanted.subrange(0, i + 1) =~= wanted.subrange(0, i as int).push(
                wanted[i as int],
            ));
        }
        list.push(item);
        i = i + 1;
    }
    assert(wanted.subrange(0, n as int) =~= wanted);
    list
}

impl<'a> Decoder<'a> {
    /// Reads a buffer of nodes.
    pub fn world_node_buffer(&self, offset: usize) -> (result: Result<Value, CodecError>)
        ensures
            match node_buffer(self@, offset as nat) {
                Ok(m) => result matches Ok(r) && r@ == m,
                Err(f) => result matches Err(e) && e@ == f,
            },
    {
        let encoded: u32 = match u32_at(self.bytes, offset) {
            Ok(encoded) => encoded,
            Err(error) => return Err(error),
        };
        if encoded <= 0x8000_0000 {
            return Err(malformed(offset, "world node buffer pointer"));
        }
        let index: usize = (encoded - 0x8000_0001) as usize;
        let (buffer, bytes, _): (Cr2wBuffer, &[u8], bool) = match self.buffer(
            index,
            offset,
            false,
        ) {
            Ok(found) => found,
            Err(error) => return Err(error),
        };
        if bytes.len() % 144 != 0 {
            return Err(malformed(offset, "world node buffer size"));
        }
        let data: Value = Value::Array(read_nodes(bytes));
        Ok(
            new_decoded_buffer(
                index,
                buffer.flags,
                "WolvenKit.RED4.Archive.Buffer.worldNodeDataBuffer, WolvenKit.RED4, Version=8.17.4.0, Culture=neutral, PublicKeyToken=null",
                data,
            ),
        )
    }
}

/// What a list in an appendix holds.
pub ghost enum ItemKind {
    Handle,
    Reference,
    Variant,
    Long,
}

/// An item of a list, and where it ends.
pub open spec fn list_item(bytes: Seq<u8>, kind: ItemKind, at: nat) -> codec_reader::Reading {
    match kind {
        ItemKind::Handle => match codec_reader::number(bytes, at, 4) {
            Err(f) => Err(f),
            Ok(n) => Ok(
                (
                    redpackage_reader::pointer(
                        "$handle"@,
                        if n == 0 {
                            0xffff_ffff
                        } else {
                            n - 1
                        },
                    ),
                    at + 4,
                ),
            ),
        },
        ItemKind::Reference => match codec_reader::string_at(bytes, at) {
            Err(f) => Err(f),
            Ok((content, end)) => Ok((redpackage_reader::stored_text("NodeRef"@, content), end)),
        },
        ItemKind::Variant => match codec_reader::number(bytes, at, 4) {
            Err(f) => Err(f),
            Ok(n) => Ok((value::integer(redpackage::signed32(n)), at + 4)),
        },
        ItemKind::Long => match codec_reader::number(bytes, at, 8) {
            Err(f) => Err(f),
            Ok(n) => Ok((value::Model::Text(number_text::decimal(n)), at + 8)),
        },
    }
}

/// The items of a list, behind those found, and where they end.
pub open spec fn list_from(
    bytes: Seq<u8>,
    kind: ItemKind,
    at: nat,
    left: nat,
    found: Seq<value::Model>,
) -> Result<(Seq<value::Model>, nat), Fault>
    decreases left,
{
    if left == 0 {
        Ok((found, at))
    } else {
        match list_item(bytes, kind, at) {
            Err(f) => Err(f),
            Ok((m, end)) => list_from(bytes, kind, end, (left - 1) as nat, found.push(m)),
        }
    }
}

/// A list behind its count.
pub open spec fn counted_list(bytes: Seq<u8>, kind: ItemKind, at: nat) -> Result<
    (Seq<value::Model>, nat),
    Fault,
> {
    match codec_reader::count_at(bytes, at) {
        Err(f) => Err(f),
        Ok((count, next)) => list_from(bytes, kind, next, count, Seq::empty()),
    }
}

/// What an item of a list is.
#[derive(Debug, Clone, Copy)]
enum ListItem {
    Handle,
    Reference,
    Variant,
    Long,
}

impl View for ListItem {
    type V = ItemKind;

    closed spec fn view(&self) -> ItemKind {
        match self {
            ListItem::Handle => ItemKind::Handle,
            ListItem::Reference => ItemKind::Reference,
            ListItem::Variant => ItemKind::Variant,
            ListItem::Long => ItemKind::Long,
        }
    }
}

fn read_item(bytes: &[u8], kind: ListItem, at: usize) -> (result: Result<
    (Value, usize),
    CodecError,
>)
    ensures
        match list_item(bytes@, kind@, at as nat) {
            Ok((m, end)) => result matches Ok(r) && r.0@ == m && r.1 == end && end <= bytes@.len(),
            Err(f) => result matches Err(e) && e@ == f,
        },
{
    let size: usize = bytes.len();
    match kind {
        ListItem::Handle => match u32_at(bytes, at) {
            Ok(n) => Ok(
                (
                    new_pointer(
                        "$handle",
                        if n == 0 {
                            0xffff_ffff
                        } else {
                            n as i128 - 1
                        },
                    ),
                    at + 4,
                ),
            ),
            Err(error) => Err(error),
        },
        ListItem::Reference => match read_string(bytes, at) {
            Ok((content, end)) => Ok((storage_string("NodeRef", content.as_str()), end)),
            Err(error) => Err(error),
        },
        ListItem::Variant => match u32_at(bytes, at) {
            Ok(n) => Ok((Value::integer(to_signed32(n) as i128), at + 4)),
            Err(error) => Err(error),
        },
        ListItem::Long => match u64_at(bytes, at) {
            Ok(n) => Ok((Value::Text(decimal_text(n)), at + 8)),
            Err(error) => Err(error),
        },
    }
}

#[verifier::loop_isolation(false)]
fn read_list(bytes: &[u8], kind: ListItem, from: usize, count: u64) -> (result: Result<
    (Vec<Value>, usize),
    CodecError,
>)
    requires
        from <= bytes@.len(),
    ensures
        match list_from(bytes@, kind@, from as nat, count as nat, Seq::empty()) {
            Ok((items, end)) => result matches Ok(r) && value::models(r.0@) == items && r.1 == end
                && end <= bytes@.len(),
            Err(f) => result matches Err(e) && e@ == f,
        },
{
    let ghost wanted = list_from(bytes@, kind@, from as nat, count as nat, Seq::empty());
    let mut items: Vec<Value> = Vec::new();
    let mut at: usize = from;
    let mut left: u64 = count;
    while left > 0
        invariant
            at <= bytes@.len(),
            wanted == list_from(
                bytes@,
                kind@,
                at as nat,
                left as nat,
                value::models(items@),
            ),
        decreases left,
    {
        let (item, end): (Value, usize) = match read_item(bytes, kind, at) {
            Ok(found) => found,
            Err(error) => return Err(error),
        };
        proof {
            value::lemma_models_push(items@, item);
        }
        items.push(item);
        at = end;
        left = left - 1;
    }
    Ok((items, at))
}

fn read_counted_list(bytes: &[u8], kind: ListItem, at: usize) -> (result: Result<
    (Vec<Value>, usize),
    CodecError,
>)
    ensures
        match counted_list(bytes@, kind@, at as nat) {
            Ok((items, end)) => result matches Ok(r) && value::models(r.0@) == items && r.1 == end
                && end <= bytes@.len(),
            Err(f) => result matches Err(e) && e@ == f,
        },
{
    match vlq(bytes, at) {
        Ok((count, next)) => read_list(bytes, kind, next, count),
        Err(error) => Err(error),
    }
}

/// An object with more entries, and where what was read for them ends.
pub type Extended = Result<(Seq<(Seq<char>, value::Model)>, nat), Fault>;

/// The lists of a sector.
pub open spec fn sector_lists(
    bytes: Seq<u8>,
    at: nat,
    object: Seq<(Seq<char>, value::Model)>,
) -> Extended {
    match counted_list(bytes, ItemKind::Handle, at) {
        Err(f) => Err(f),
        Ok((handles, second)) => match counted_list(bytes, ItemKind::Reference, second) {
            Err(f) => Err(f),
            Ok((references, third)) => match counted_list(bytes, ItemKind::Variant, third) {
                Err(f) => Err(f),
                Ok((variants, last)) => match codec_reader::number(bytes, last, 4) {
                    Err(f) => Err(f),
                    Ok(index) => Ok(
                        (
                            entries::put(
                                entries::put(
                                    entries::put(
                                        entries::put(
                                            object,
                                            "nodes"@,
                                            value::Model::Array(handles),
                                        ),
                                        "nodeRefs"@,
                                        value::Model::Array(references),
                                    ),
                                    "variantIndices"@,
                                    value::Model::Array(variants),
                                ),
                                "persistentNodeIndex"@,
                                value::integer(redpackage::signed32(index)),
                            ),
                            last + 4,
                        ),
                    ),
                },
            },
        },
    }
}

/// What stands behind the properties of a sector.
pub open spec fn sector(
    r: Resource,
    cursor: nat,
    end: nat,
    object: Seq<(Seq<char>, value::Model)>,
) -> Extended {
    match (codec_reader::number(r.bytes, cursor, 4), codec_reader::number(r.bytes, cursor + 4, 4)) {
        (Err(f), _) => Err(f),
        (_, Err(f)) => Err(f),
        (Ok(version), Ok(_)) => match node_buffer(r, cursor + 8) {
            Err(f) => Err(f),
            Ok(data) => match sector_lists(
                r.bytes,
                cursor + 12,
                entries::put(
                    entries::put(
                        object,
                        "version"@,
                        value::integer(redpackage::signed32(version)),
                    ),
                    "nodeData"@,
                    data,
                ),
            ) {
                Err(f) => Err(f),
                Ok((extended, last)) => if last > end {
                    codec_reader::fault(last, "streaming sector appendix"@)
                } else {
                    Ok((extended, last))
                },
            },
        },
    }
}

/// A device, and where it ends.
pub open spec fn device(r: Resource, at: nat) -> codec_reader::Reading {
    match (
        codec_reader::number(r.bytes, at, 8),
        codec_reader::name_there(r, at + 8, at + 8),
        codec_reader::count_at(r.bytes, at + 10),
    ) {
        (Err(f), _, _) => Err(f),
        (_, Err(f), _) => Err(f),
        (_, _, Err(f)) => Err(f),
        (Ok(hash), Ok(class), Ok((children, next))) => match codec_reader::count_at(
            r.bytes,
            next,
        ) {
            Err(f) => Err(f),
            Ok((parents, first)) => device_lists(r.bytes, hash, class, children, parents, first),
        },
    }
}

/// The lists of a device.
pub open spec fn device_lists(
    bytes: Seq<u8>,
    hash: nat,
    class: Seq<char>,
    children: nat,
    parents: nat,
    at: nat,
) -> codec_reader::Reading {
    match list_from(bytes, ItemKind::Long, at, children, Seq::empty()) {
        Err(f) => Err(f),
        Ok((below, second)) => match list_from(
            bytes,
            ItemKind::Long,
            second,
            parents,
            Seq::empty(),
        ) {
            Err(f) => Err(f),
            Ok((above, place)) => match (
                codec_reader::number(bytes, place, 4),
                codec_reader::number(bytes, place + 4, 4),
                codec_reader::number(bytes, place + 8, 4),
            ) {
                (Err(f), _, _) => Err(f),
                (_, Err(f), _) => Err(f),
                (_, _, Err(f)) => Err(f),
                _ => Ok(
                    (
                        value::Model::Object(
                            entries::put(
                                entries::put(
                                    entries::put(
                                        entries::put(
                                            entries::put(
                                                typed("gameDeviceResourceData_Cls1"@),
                                                "hash"@,
                                                value::Model::Text(number_text::decimal(hash)),
                                            ),
                                            "className"@,
                                            redpackage_reader::stored_text("CName"@, class),
                                        ),
                                        "children"@,
                                        value::Model::Array(below),
                                    ),
                                    "parents"@,
                                    value::Model::Array(above),
                                ),
                                "nodePosition"@,
                                vector3(bytes, place),
                            ),
                        ),
                        place + 12,
                    ),
                ),
            },
        },
    }
}

/// Devices, behind those found, and where they end.
pub open spec fn devices_from(r: Resource, at: nat, left: nat, found: Seq<value::Model>) -> Result<
    (Seq<value::Model>, nat),
    Fault,
>
    decreases left,
{
    if left == 0 {
        Ok((found, at))
    } else {
        match device(r, at) {
            Err(f) => Err(f),
            Ok((m, end)) => devices_from(r, end, (left - 1) as nat, found.push(m)),
        }
    }
}

/// What stands behind the properties of device data.
pub open spec fn device_data(
    r: Resource,
    cursor: nat,
    end: nat,
    object: Seq<(Seq<char>, value::Model)>,
) -> Extended {
    match (codec_reader::number(r.bytes, cursor, 4), codec_reader::number(r.bytes, cursor + 4, 4)) {
        (Err(f), _) => Err(f),
        (_, Err(f)) => Err(f),
        (Ok(_), Ok(count)) => match devices_from(r, cursor + 8, count, Seq::empty()) {
            Err(f) => Err(f),
            Ok((devices, last)) => if last > end {
                codec_reader::fault(last, "device data appendix"@)
            } else {
                Ok((entries::put(object, "unk1"@, value::Model::Array(devices)), last))
            },
        },
    }
}

impl<'a> Decoder<'a> {
    fn read_sector_lists(&self, at: usize, object: &mut Vec<(String, Value)>) -> (result: Result<
        usize,
        CodecError,
    >)
        ensures
            match sector_lists(self@.bytes, at as nat, value::entry_models(old(object)@)) {
                Ok((fields, end)) => result matches Ok(r) && value::entry_models(final(object)@)
                    == fields && r == end,
                Err(f) => result matches Err(e) && e@ == f,
            },
    {
        let bytes: &[u8] = self.bytes;
        let size: usize = bytes.len();
        let (handles, second): (Vec<Value>, usize) = match read_counted_list(
            bytes,
            ListItem::Handle,
            at,
        ) {
            Ok(found) => found,
            Err(error) => return Err(error),
        };
        let (references, third): (Vec<Value>, usize) = match read_counted_list(
            bytes,
            ListItem::Reference,
            second,
        ) {
            Ok(found) => found,
            Err(error) => return Err(error),
        };
        let (variants, last): (Vec<Value>, usize) = match read_counted_list(
            bytes,
            ListItem::Variant,
            third,
        ) {
            Ok(found) => found,
            Err(error) => return Err(error),
        };
        let index: u32 = match u32_at(bytes, last) {
            Ok(index) => index,
            Err(error) => return Err(error),
        };
        set_entry(object, "nodes", Value::Array(handles));
        set_entry(object, "nodeRefs", Value::Array(references));
        set_entry(object, "variantIndices", Value::Array(variants));
        set_entry(object, "persistentNodeIndex", Value::integer(to_signed32(index) as i128));
        Ok(last + 4)
    }

    /// Reads what stands behind the properties of a sector.
    pub fn read_streaming_sector_appendix(
        &self,
        cursor: usize,
        end: usize,
        object: &mut Vec<(String, Value)>,
    ) -> (result: Result<usize, CodecError>)
        ensures
            match sector(
                self@,
                cursor as nat,
                end as nat,
                value::entry_models(old(object)@),
            ) {
                Ok((fields, last)) => result matches Ok(r) && value::entry_models(final(object)@)
                    == fields && r == last,
                Err(f) => result matches Err(e) && e@ == f,
            },
    {
        let size: usize = self.bytes.len();
        let version: u32 = match u32_at(self.bytes, cursor) {
            Ok(version) => version,
            Err(error) => return Err(error),
        };
        match u32_at(self.bytes, cursor + 4) {
            Ok(_) => {},
            Err(error) => return Err(error),
        }
        let data: Value = match self.world_node_buffer(cursor + 8) {
            Ok(data) => data,
            Err(error) => return Err(error),
        };
        assert(codec_reader::number(self.bytes@, cursor as nat + 8, 4) is Ok);
        set_entry(object, "version", Value::integer(to_signed32(version) as i128));
        set_entry(object, "nodeData", data);
        let last: usize = match self.read_sector_lists(cursor + 12, object) {
            Ok(last) => last,
            Err(error) => return Err(error),
        };
        if last > end {
            return Err(malformed(last, "streaming sector appendix"));
        }
        Ok(last)
    }

    fn read_device_lists(
        &self,
        hash: u64,
        class: &str,
        children: u64,
        parents: u64,
        at: usize,
    ) -> (result: Result<(Value, usize), CodecError>)
        requires
            at <= self.bytes@.len(),
        ensures
            match device_lists(
                self@.bytes,
                hash as nat,
                class@,
                children as nat,
                parents as nat,
                at as nat,
            ) {
                Ok((m, end)) => result matches Ok(r) && r.0@ == m && r.1 == end && end
                    <= self.bytes@.len(),
                Err(f) => result matches Err(e) && e@ == f,
            },
    {
        let bytes: &[u8] = self.bytes;
        let size: usize = bytes.len();
        let (below, second): (Vec<Value>, usize) = match read_list(
            bytes,
            ListItem::Long,
            at,
            children,
        ) {
            Ok(found) => found,
            Err(error) => return Err(error),
        };
        let (above, place): (Vec<Value>, usize) = match read_list(
            bytes,
            ListItem::Long,
            second,
            parents,
        ) {
            Ok(found) => found,
            Err(error) => return Err(error),
        };
        match u32_at(bytes, place) {
            Ok(_) => {},
            Err(error) => return Err(error),
        }
        match u32_at(bytes, place + 4) {
            Ok(_) => {},
            Err(error) => return Err(error),
        }
        match u32_at(bytes, place + 8) {
            Ok(_) => {},
            Err(error) => return Err(error),
        }
        let mut fields: Vec<(String, Value)> = typed_fields("gameDeviceResourceData_Cls1");
        set_entry(&mut fields, "hash", Value::Text(decimal_text(hash)));
        set_entry(&mut fields, "className", storage_string("CName", class));
        set_entry(&mut fields, "children", Value::Array(below));
        set_entry(&mut fields, "parents", Value::Array(above));
        let mut position: Vec<(String, Value)> = typed_fields("Vector3");
        set_entry(&mut position, "X", get_single(bytes, place));
        set_entry(&mut position, "Y", get_single(bytes, place + 4));
        set_entry(&mut position, "Z", get_single(bytes, place + 8));
        set_entry(&mut fields, "nodePosition", Value::Object(position));
        Ok((Value::Object(fields), place + 12))
    }

    fn read_device(&self, at: usize) -> (result: Result<(Value, usize), CodecError>)
        ensures
            match device(self@, at as nat) {
                Ok((m, end)) => result matches Ok(r) && r.0@ == m && r.1 == end && end
                    <= self.bytes@.len(),
                Err(f) => result matches Err(e) && e@ == f,
            },
    {
        let size: usize = self.bytes.len();
        let hash: u64 = match u64_at(self.bytes, at) {
            Ok(hash) => hash,
            Err(error) => return Err(error),
        };
        let class: &str = match self.name_there(at + 8, at + 8) {
            Ok(class) => class,
            Err(error) => return Err(error),
        };
        let (children, next): (u64, usize) = match vlq(self.bytes, at + 10) {
            Ok(found) => found,
            Err(error) => return Err(error),
        };
        let (parents, first): (u64, usize) = match vlq(self.bytes, next) {
            Ok(found) => found,
            Err(error) => return Err(error),
        };
        self.read_device_lists(hash, class, children, parents, first)
    }

    /// Reads what stands behind the properties of device data.
    #[verifier::loop_isolation(false)]
    pub fn read_device_data_appendix(
        &self,
        cursor: usize,
        end: usize,
        object: &mut Vec<(String, Value)>,
    ) -> (result: Result<usize, CodecError>)
        ensures
            match device_data(
                self@,
                cursor as nat,
                end as nat,
                value::entry_models(old(object)@),
            ) {
                Ok((fields, last)) => result matches Ok(r) && value::entry_models(final(object)@)
                    == fields && r == last,
                Err(f) => result matches Err(e) && e@ == f,
            },
    {
        let size: usize = self.bytes.len();
        match u32_at(self.bytes, cursor) {
            Ok(_) => {},
            Err(error) => return Err(error),
        }
        let count: u32 = match u32_at(self.bytes, cursor + 4) {
            Ok(count) => count,
            Err(error) => return Err(error),
        };
        let ghost wanted = devices_from(self@, cursor as nat + 8, count as nat, Seq::empty());
        let mut devices: Vec<Value> = Vec::new();
        let mut at: usize = cursor + 8;
        let mut left: u32 = count;
        while left > 0
            invariant
                wanted == devices_from(
                    self@,
                    at as nat,
                    left as nat,
                    value::models(devices@),
                ),
            decreases left,
        {
            let (item, next): (Value, usize) = match self.read_device(at) {
                Ok(found) => found,
                Err(error) => return Err(error),
            };
            proof {
                value::lemma_models_push(devices@, item);
            }
            devices.push(item);
            at = next;
            left = left - 1;
        }
        if at > end {
            return Err(malformed(at, "device data appendix"));
        }
        set_entry(object, "unk1", Value::Array(devices));
        Ok(at)
    }
}

} // verus!
