//! Documents out of RED packages.

use crate::entries;
use crate::number_text;
use crate::number_text::decimal_text;
use crate::red_types;
use crate::red_types::{fixed_size, is_text};
use crate::redpackage;
use crate::redpackage::{byte, malformed, u16_at, u32_at, u64_at, unsupported, PackageError};
use crate::redpackage_layout_laws;
use crate::redpackage_reader;
use crate::redpackage_reader::{
    form_of, read_fields, starts_with_class, starts_with_effect, storage_string, Form, Package,
    Reader, Reading,
};
use crate::text::{chars_of, push_text, text_of};
use crate::value;
use crate::value::{set_entry, Value};
use vstd::prelude::*;

verus! {

/// Floats under their keys.
pub open spec fn singles(
    object: Seq<(Seq<char>, value::Model)>,
    bytes: Seq<u8>,
    at: nat,
    keys: Seq<Seq<char>>,
) -> Result<Seq<(Seq<char>, value::Model)>, redpackage::Fault>
    decreases keys.len(),
{
    if keys.len() == 0 {
        Ok(object)
    } else {
        match redpackage::number(bytes, at, 4) {
            Err(f) => Err(f),
            Ok(bits) => singles(
                entries::put(object, keys[0], value::single(bits)),
                bytes,
                at + 4,
                keys.drop_first(),
            ),
        }
    }
}

/// The keys of a position.
pub open spec fn position_keys() -> Seq<Seq<char>> {
    seq!["X"@, "Y"@, "Z"@]
}

/// The keys of a rotation.
pub open spec fn rotation_keys() -> Seq<Seq<char>> {
    seq!["i"@, "j"@, "k"@, "r"@]
}

/// An object with a type and nothing else yet.
pub open spec fn typed(t: Seq<char>) -> Seq<(Seq<char>, value::Model)> {
    entries::put(Seq::empty(), "$type"@, value::Model::Text(t))
}

/// The properties of a compiled effect that are stored as tables.
pub open spec fn effect_table(name: Seq<char>) -> bool {
    name == "placementTags"@ || name == "componentNames"@ || name == "relativePositions"@ || name
        == "relativeRotations"@ || name == "placementInfos"@ || name == "eventsSortedByRUID"@
}

/// Tells whether a property of a compiled effect is stored as a table.
pub fn is_effect_table(name: &[char]) -> (result: bool)
    ensures
        result == effect_table(name@),
{
    is_text(name, "placementTags") || is_text(name, "componentNames") || is_text(
        name,
        "relativePositions",
    ) || is_text(name, "relativeRotations") || is_text(name, "placementInfos") || is_text(
        name,
        "eventsSortedByRUID",
    )
}

/// A placement in a compiled effect.
pub open spec fn placement_info(bytes: Seq<u8>, at: nat) -> Reading {
    if at + 4 > usize::MAX {
        redpackage::fault(at, "byte bounds"@)
    } else {
        placement_entries(bytes, at)
    }
}

/// The entries of a placement in a compiled effect.
pub open spec fn placement_entries(bytes: Seq<u8>, at: nat) -> Reading {
    match (
        redpackage::byte_at(bytes, at + 3),
        redpackage::byte_at(bytes, at),
        redpackage::byte_at(bytes, at + 1),
        redpackage::byte_at(bytes, at + 2),
    ) {
        (Ok(flags), Ok(tag), Ok(position), Ok(rotation)) => Ok(
            (
                value::Model::Object(
                    entries::put(
                        entries::put(
                            entries::put(
                                entries::put(
                                    typed("worldCompiledEffectPlacementInfo"@),
                                    "flags"@,
                                    value::integer(flags as int),
                                ),
                                "placementTagIndex"@,
                                value::integer(tag as int),
                            ),
                            "relativePositionIndex"@,
                            value::integer(position as int),
                        ),
                        "relativeRotationIndex"@,
                        value::integer(rotation as int),
                    ),
                ),
                at + 4,
            ),
        ),
        (Err(f), _, _, _) => Err(f),
        (_, Err(f), _, _) => Err(f),
        (_, _, Err(f), _) => Err(f),
        (_, _, _, Err(f)) => Err(f),
    }
}

/// An event in a compiled effect.
pub open spec fn event_info(bytes: Seq<u8>, at: nat) -> Reading {
    if at + 32 > usize::MAX {
        redpackage::fault(at, "compiled effect bounds"@)
    } else {
        event_entries(bytes, at)
    }
}

/// The entries of an event in a compiled effect.
pub open spec fn event_entries(bytes: Seq<u8>, at: nat) -> Reading {
    match (
        redpackage::number(bytes, at + 16, 8),
        redpackage::number(bytes, at, 8),
        redpackage::byte_at(bytes, at + 24),
        redpackage::number(bytes, at + 8, 8),
    ) {
        (Ok(components), Ok(event), Ok(flags), Ok(placements)) => Ok(
            (
                value::Model::Object(
                    entries::put(
                        entries::put(
                            entries::put(
                                entries::put(
                                    typed("worldCompiledEffectEventInfo"@),
                                    "componentIndexMask"@,
                                    value::Model::Text(number_text::decimal(components)),
                                ),
                                "eventRUID"@,
                                value::Model::Text(number_text::decimal(event)),
                            ),
                            "flags"@,
                            value::integer(flags as int),
                        ),
                        "placementIndexMask"@,
                        value::Model::Text(number_text::decimal(placements)),
                    ),
                ),
                at + 32,
            ),
        ),
        (Err(f), _, _, _) => Err(f),
        (_, Err(f), _, _) => Err(f),
        (_, _, Err(f), _) => Err(f),
        (_, _, _, Err(f)) => Err(f),
    }
}

/// An item of a table of a compiled effect.
pub open spec fn effect_item(p: Package, name: Seq<char>, at: nat) -> Reading {
    if name == "placementTags"@ || name == "componentNames"@ {
        match redpackage_reader::name_there(p, at, at) {
            Ok(tag) => Ok((redpackage_reader::stored_text("CName"@, tag), at + 2)),
            Err(f) => Err(f),
        }
    } else if name == "relativePositions"@ {
        match singles(typed("Vector3"@), p.bytes, at, position_keys()) {
            Ok(fields) => Ok((value::Model::Object(fields), at + 12)),
            Err(f) => Err(f),
        }
    } else if name == "relativeRotations"@ {
        match singles(typed("Quaternion"@), p.bytes, at, rotation_keys()) {
            Ok(fields) => Ok((value::Model::Object(fields), at + 16)),
            Err(f) => Err(f),
        }
    } else if name == "placementInfos"@ {
        placement_info(p.bytes, at)
    } else {
        event_info(p.bytes, at)
    }
}

/// The items of a table of a compiled effect, behind those found.
pub open spec fn effect_items(
    p: Package,
    name: Seq<char>,
    at: nat,
    left: nat,
    found: Seq<value::Model>,
) -> Result<(Seq<value::Model>, nat), redpackage::Fault>
    decreases left,
{
    if left == 0 {
        Ok((found, at))
    } else {
        match effect_item(p, name, at) {
            Err(f) => Err(f),
            Ok((item, end)) => effect_items(p, name, end, (left - 1) as nat, found.push(item)),
        }
    }
}

/// A table of a compiled effect.
pub open spec fn effect_property(p: Package, name: Seq<char>, start: nat, limit: nat) -> Reading {
    match redpackage::number(p.bytes, start, 4) {
        Err(f) => Err(f),
        Ok(count) => match effect_items(p, name, start + 4, count, Seq::empty()) {
            Err(f) => Err(f),
            Ok((items, end)) => if end > limit {
                redpackage::fault(end, "compiled effect bounds"@)
            } else {
                Ok((value::Model::Array(items), end))
            },
        },
    }
}

fn typed_fields(t: &str) -> (result: Vec<(String, Value)>)
    ensures
        value::entry_models(result@) == typed(t@),
{
    let mut fields: Vec<(String, Value)> = Vec::new();
    set_entry(&mut fields, "$type", Value::text(t));
    fields
}

fn read_singles(t: &str, bytes: &[u8], at: usize, keys: &[&str], Ghost(names): Ghost<Seq<Seq<char>>>) -> (result: Result<
    Value,
    PackageError,
>)
    requires
        keys@.len() == names.len(),
        forall|i: int| 0 <= i < names.len() ==> #[trigger] names[i] == keys@[i]@,
    ensures
        match singles(typed(t@), bytes@, at as nat, names) {
            Ok(fields) => result matches Ok(r) && r@ == value::Model::Object(fields) && (
            names.len() > 0 ==> at + 4 * names.len() <= bytes@.len()),
            Err(f) => result matches Err(e) && e@ == f,
        },
{
    let size: usize = bytes.len();
    let mut fields: Vec<(String, Value)> = typed_fields(t);
    let ghost wanted = singles(typed(t@), bytes@, at as nat, names);
    assert(names.subrange(0, names.len() as int) =~= names);
    let mut i: usize = 0;
    let mut place: usize = at;
    while i < keys.len()
        invariant
            i <= keys@.len() == names.len(),
            size == bytes@.len(),
            i > 0 ==> place == at + 4 * i && place <= size,
            i == 0 ==> place == at,
            forall|k: int| 0 <= k < names.len() ==> #[trigger] names[k] == keys@[k]@,
            wanted == singles(typed(t@), bytes@, at as nat, names),
            wanted == singles(
                value::entry_models(fields@),
                bytes@,
                place as nat,
                names.subrange(i as int, names.len() as int),
            ),
        decreases keys@.len() - i,
    {
        let ghost rest = names.subrange(i as int, names.len() as int);
        assert(rest[0] == names[i as int]);
        assert(rest.drop_first() =~= names.subrange(i + 1, names.len() as int));
        let bits: u32 = match u32_at(bytes, place) {
            Ok(bits) => bits,
            Err(error) => return Err(error),
        };
        set_entry(&mut fields, keys[i], Value::single(bits));
        place = place + 4;
        i = i + 1;
    }
    Ok(Value::Object(fields))
}

/// Why a field could not be read.
pub open spec fn field_fault(
    class: Seq<char>,
    name: Seq<char>,
    t: Seq<char>,
    start: nat,
    limit: nat,
    fault: redpackage::Fault,
) -> redpackage::Fault {
    redpackage::Fault::Unsupported(
        class + "."@ + name + " ("@ + t + ") at "@ + number_text::decimal(start) + ".."@
            + number_text::decimal(limit) + ": "@ + redpackage::fault_text(fault),
    )
}

/// The value of a field. A class that takes all the bytes of the class it is in
/// would be read in itself without end, unless it is a compiled effect in
/// another class: there the tables are read, and no class.
pub open spec fn field_value(
    p: Package,
    class: Seq<char>,
    name: Seq<char>,
    t: Seq<char>,
    place: nat,
    end: nat,
    start: nat,
    limit: nat,
) -> Reading
    decreases
        redpackage_reader::room(p.bytes, start),
        redpackage_reader::reach(redpackage_reader::class_rank(class), start, limit),
        0nat,
        0nat,
        0nat,
{
    proof {
        redpackage_reader::lemma_type_rank(p.classes, t);
    }
    let last = redpackage_reader::value_limit(t, place, end);
    if class == "worldCompiledEffectInfo"@ && p.unknown1 == 2 && effect_table(name) {
        effect_property(p, name, place, end)
    } else if redpackage_reader::shape(p.classes, t) is Leaf {
        redpackage_reader::leaf(p, t, place, last)
    } else if !redpackage_reader::goes_on(p, class, t, place, last, start, limit) {
        redpackage::fault(place, "field bounds"@)
    } else {
        value_at(p, t, place, last)
    }
}

/// The fields of a class from index `i` on, behind the entries read.
pub open spec fn record(
    p: Package,
    class: Seq<char>,
    fields: Seq<(nat, nat, nat)>,
    i: nat,
    start: nat,
    limit: nat,
    object: Seq<(Seq<char>, value::Model)>,
    consumed: nat,
) -> Reading
    decreases
        redpackage_reader::room(p.bytes, start),
        redpackage_reader::reach(redpackage_reader::class_rank(class), start, limit),
        0nat,
        1nat,
        fields.len() - i,
{
    if i >= fields.len() {
        Ok((value::Model::Object(object), consumed))
    } else {
        let place = fields[i as int].2;
        let end = redpackage_reader::field_limit(fields, i, limit);
        if place > end || end > limit {
            redpackage::fault(place, "field bounds"@)
        } else {
            match (
                redpackage_reader::name_of(p, fields[i as int].0, place),
                redpackage_reader::name_of(p, fields[i as int].1, place),
            ) {
                (Err(f), _) => Err(f),
                (_, Err(f)) => Err(f),
                (Ok(name), Ok(t)) => match field_value(
                    p,
                    class,
                    name,
                    t,
                    place,
                    end,
                    start,
                    limit,
                ) {
                    Err(f) => Err(field_fault(class, name, t, place, end, f)),
                    Ok((m, behind)) => if behind > end {
                        redpackage::fault(behind, "field overrun"@)
                    } else {
                        record(
                            p,
                            class,
                            fields,
                            i + 1,
                            start,
                            limit,
                            entries::put(object, name, m),
                            behind,
                        )
                    },
                },
            }
        }
    }
}

/// A class, and where its last field ends.
pub open spec fn class_at(p: Package, class: Seq<char>, start: nat, limit: nat) -> Reading
    decreases
        redpackage_reader::room(p.bytes, start),
        redpackage_reader::reach(redpackage_reader::class_rank(class), start, limit),
        0nat,
        2nat,
        0nat,
{
    match redpackage_reader::fields_of(p.bytes, start) {
        Err(f) => Err(f),
        Ok(fields) => record(
            p,
            class,
            fields,
            0,
            start,
            limit,
            typed(class),
            start + 2 + fields.len() * 8,
        ),
    }
}

/// A value, and where it ends.
pub open spec fn value_at(p: Package, t: Seq<char>, start: nat, limit: nat) -> Reading
    decreases
        redpackage_reader::room(p.bytes, start),
        redpackage_reader::span(p.classes, t, start, limit),
        t.len(),
        3nat,
        0nat,
{
    proof {
        redpackage_reader::lemma_shape(p.classes, t);
        redpackage_reader::lemma_ranks(p.classes, t);
    }
    match redpackage_reader::shape(p.classes, t) {
        redpackage_reader::Shape::Array(inner) => match redpackage::number(p.bytes, start, 4) {
            Err(f) => Err(f),
            Ok(count) => elements(p, inner, start + 4, count, limit, Seq::empty()),
        },
        redpackage_reader::Shape::Static(count, inner) => elements(
            p,
            inner,
            start,
            count,
            limit,
            Seq::empty(),
        ),
        redpackage_reader::Shape::Broken => Err(redpackage::Fault::Unsupported(t)),
        redpackage_reader::Shape::Class => class_at(p, t, start, limit),
        redpackage_reader::Shape::Leaf => redpackage_reader::leaf(p, t, start, limit),
    }
}

/// The elements of an array, behind those found.
pub open spec fn elements(
    p: Package,
    inner: Seq<char>,
    cursor: nat,
    left: nat,
    limit: nat,
    found: Seq<value::Model>,
) -> Reading
    decreases
        redpackage_reader::room(p.bytes, cursor),
        if left > 0 {
            redpackage_reader::span(
                p.classes,
                inner,
                cursor,
                redpackage_reader::value_limit(inner, cursor, limit),
            )
        } else {
            0
        },
        inner.len(),
        4nat,
        left,
{
    if left == 0 {
        Ok((value::Model::Array(found), cursor))
    } else {
        proof {
            redpackage_reader::lemma_type_rank(p.classes, inner);
        }
        let last = redpackage_reader::value_limit(inner, cursor, limit);
        let reading = if redpackage_reader::shape(p.classes, inner) is Leaf {
            redpackage_reader::leaf(p, inner, cursor, last)
        } else {
            value_at(p, inner, cursor, last)
        };
        match reading {
            Err(f) => Err(f),
            Ok((m, end)) => if end <= cursor || end > limit || cursor >= p.bytes.len() {
                redpackage::fault(cursor, "array element bounds"@)
            } else {
                elements(p, inner, end, (left - 1) as nat, limit, found.push(m))
            },
        }
    }
}

fn describe_field(class: &[char], name: &str, t: &str, start: usize, limit: usize, error: &PackageError) -> (result:
    PackageError)
    ensures
        result@ == field_fault(class@, name@, t@, start as nat, limit as nat, error@),
{
    let mut text: String = text_of(class);
    push_text(&mut text, ".");
    push_text(&mut text, name);
    push_text(&mut text, " (");
    push_text(&mut text, t);
    push_text(&mut text, ") at ");
    push_text(&mut text, decimal_text(start as u64).as_str());
    push_text(&mut text, "..");
    push_text(&mut text, decimal_text(limit as u64).as_str());
    push_text(&mut text, ": ");
    push_text(&mut text, error.describe().as_str());
    PackageError::Unsupported(text)
}

/// What a class can reach, by whether it is a compiled effect.
fn reach_of(effect: bool, start: usize, limit: usize) -> (result: u128)
    ensures
        result == redpackage_reader::reach(
            if effect {
                2
            } else {
                3
            },
            start as nat,
            limit as nat,
        ),
{
    if start > limit {
        0
    } else if effect {
        3 * (limit - start) as u128 + 2
    } else {
        3 * (limit - start) as u128 + 3
    }
}

impl<'a> Reader<'a> {
    fn read_effect_item(&self, name: &[char], at: usize) -> (result: Result<
        (Value, usize),
        PackageError,
    >)
        ensures
            match effect_item(self@, name@, at as nat) {
                Ok((m, end)) => result matches Ok(r) && r.0@ == m && r.1 == end,
                Err(f) => result matches Err(e) && e@ == f,
            },
    {
        let bytes: &[u8] = self.bytes;
        let size: usize = bytes.len();
        if is_text(name, "placementTags") || is_text(name, "componentNames") {
            return match self.name_there(at, at) {
                Ok(tag) => Ok((storage_string("CName", tag), at + 2)),
                Err(error) => Err(error),
            };
        }
        if is_text(name, "relativePositions") {
            return match read_singles(
                "Vector3",
                bytes,
                at,
                &["X", "Y", "Z"],
                Ghost(position_keys()),
            ) {
                Ok(value) => Ok((value, at + 12)),
                Err(error) => Err(error),
            };
        }
        if is_text(name, "relativeRotations") {
            return match read_singles(
                "Quaternion",
                bytes,
                at,
                &["i", "j", "k", "r"],
                Ghost(rotation_keys()),
            ) {
                Ok(value) => Ok((value, at + 16)),
                Err(error) => Err(error),
            };
        }
        if is_text(name, "placementInfos") {
            self.read_placement(at)
        } else {
            self.read_event(at)
        }
    }

    /// Reads a placement.
    fn read_placement(&self, at: usize) -> (result: Result<(Value, usize), PackageError>)
        ensures
            match placement_info(self@.bytes, at as nat) {
                Ok((m, end)) => result matches Ok(r) && r.0@ == m && r.1 == end,
                Err(f) => result matches Err(e) && e@ == f,
            },
    {
        let bytes: &[u8] = self.bytes;
        let size: usize = bytes.len();
        if at > usize::MAX - 4 {
            return Err(malformed(at, "byte bounds"));
        }
        let flags: u8 = match byte(bytes, at + 3) {
            Ok(value) => value,
            Err(error) => return Err(error),
        };
        let mut fields: Vec<(String, Value)> = typed_fields("worldCompiledEffectPlacementInfo");
        set_entry(&mut fields, "flags", Value::integer(flags as i128));
        set_entry(&mut fields, "placementTagIndex", Value::integer(bytes[at] as i128));
        set_entry(&mut fields, "relativePositionIndex", Value::integer(bytes[at + 1] as i128));
        set_entry(&mut fields, "relativeRotationIndex", Value::integer(bytes[at + 2] as i128));
        Ok((Value::Object(fields), at + 4))
    }

    /// Reads an event.
    fn read_event(&self, at: usize) -> (result: Result<(Value, usize), PackageError>)
        ensures
            match event_info(self@.bytes, at as nat) {
                Ok((m, end)) => result matches Ok(r) && r.0@ == m && r.1 == end,
                Err(f) => result matches Err(e) && e@ == f,
            },
    {
        let bytes: &[u8] = self.bytes;
        if at > usize::MAX - 32 {
            return Err(malformed(at, "compiled effect bounds"));
        }
        let components: u64 = match u64_at(bytes, at + 16) {
            Ok(value) => value,
            Err(error) => return Err(error),
        };
        let event: u64 = match u64_at(bytes, at) {
            Ok(value) => value,
            Err(error) => return Err(error),
        };
        let flags: u8 = match byte(bytes, at + 24) {
            Ok(value) => value,
            Err(error) => return Err(error),
        };
        let placements: u64 = match u64_at(bytes, at + 8) {
            Ok(value) => value,
            Err(error) => return Err(error),
        };
        let mut fields: Vec<(String, Value)> = typed_fields("worldCompiledEffectEventInfo");
        set_entry(&mut fields, "componentIndexMask", Value::Text(decimal_text(components)));
        set_entry(&mut fields, "eventRUID", Value::Text(decimal_text(event)));
        set_entry(&mut fields, "flags", Value::integer(flags as i128));
        set_entry(&mut fields, "placementIndexMask", Value::Text(decimal_text(placements)));
        Ok((Value::Object(fields), at + 32))
    }

    /// Reads a table of a compiled effect.
    pub fn read_compiled_effect_property(&self, name: &[char], start: usize, limit: usize) -> (result:
        Result<(Value, usize), PackageError>)
        ensures
            match effect_property(self@, name@, start as nat, limit as nat) {
                Ok((m, end)) => result matches Ok(r) && r.0@ == m && r.1 == end,
                Err(f) => result matches Err(e) && e@ == f,
            },
    {
        let size: usize = self.bytes.len();
        let count: u32 = match u32_at(self.bytes, start) {
            Ok(count) => count,
            Err(error) => return Err(error),
        };
        let ghost wanted = effect_items(
            self@,
            name@,
            start as nat + 4,
            count as nat,
            Seq::empty(),
        );
        let mut items: Vec<Value> = Vec::new();
        let mut at: usize = start + 4;
        let mut left: u32 = count;
        while left > 0
            invariant
                redpackage::number(self@.bytes, start as nat, 4) == Ok::<nat, redpackage::Fault>(
                    count as nat,
                ),
                wanted == effect_items(
                    self@,
                    name@,
                    start as nat + 4,
                    count as nat,
                    Seq::empty(),
                ),
                wanted == effect_items(
                    self@,
                    name@,
                    at as nat,
                    left as nat,
                    value::models(items@),
                ),
            decreases left,
        {
            let (item, end): (Value, usize) = match self.read_effect_item(name, at) {
                Ok(reading) => reading,
                Err(error) => return Err(error),
            };
            proof {
                value::lemma_models_push(items@, item);
            }
            items.push(item);
            at = end;
            left = left - 1;
        }
        if at > limit {
            return Err(malformed(at, "compiled effect bounds"));
        }
        Ok((Value::Array(items), at))
    }

    /// Where a value of a type ends at the latest.
    pub fn limit_of(&self, t: &[char], start: usize, limit: usize) -> (result: usize)
        requires
            start + 16 <= usize::MAX,
        ensures
            result == redpackage_reader::value_limit(t@, start as nat, limit as nat),
    {
        match fixed_size(t) {
            None => limit,
            Some(size) => start + size,
        }
    }

    /// Where the class that a value starts with ends at the latest.
    fn class_limit_of(&self, t: &[char], start: usize, limit: usize) -> (result: usize)
        requires
            start + 16 <= usize::MAX,
        ensures
            result == redpackage_reader::class_limit(
                self@.classes,
                t@,
                start as nat,
                limit as nat,
            ),
        decreases t@.len(),
    {
        proof {
            redpackage_reader::lemma_shape(self@.classes, t@);
        }
        match form_of(self.classes, t) {
            Form::Static(_, inner) => {
                let last: usize = self.limit_of(inner, start, limit);
                self.class_limit_of(inner, start, last)
            },
            _ => limit,
        }
    }

    /// Tells whether reading a value in a class comes to an end.
    fn can_go_on(
        &self,
        class: &[char],
        t: &[char],
        place: usize,
        last: usize,
        start: usize,
        limit: usize,
    ) -> (result: bool)
        requires
            place + 16 <= usize::MAX,
        ensures
            result == redpackage_reader::goes_on(
                self@,
                class@,
                t@,
                place as nat,
                last as nat,
                start as nat,
                limit as nat,
            ),
    {
        if place != start {
            return start < place && start < self.bytes.len();
        }
        proof {
            redpackage_reader::lemma_type_rank(self@.classes, t@);
        }
        let effect: bool = is_text(class, "worldCompiledEffectInfo");
        let whole: u128 = reach_of(effect, start, limit);
        if !starts_with_class(self.classes, t) {
            return 1 < whole;
        }
        let inner: usize = self.class_limit_of(t, place, last);
        reach_of(starts_with_effect(self.classes, t), place, inner) < whole
    }

    fn read_field(
        &self,
        class: &[char],
        name: &[char],
        t: &[char],
        place: usize,
        end: usize,
        start: usize,
        limit: usize,
    ) -> (result: Result<(Value, usize), PackageError>)
        requires
            place <= limit,
            end <= limit,
            self.bytes@.len() + 64 <= usize::MAX,
            limit + 48 <= usize::MAX,
        ensures
            match field_value(
                self@,
                class@,
                name@,
                t@,
                place as nat,
                end as nat,
                start as nat,
                limit as nat,
            ) {
                Ok((m, behind)) => result matches Ok(r) && r.0@ == m && r.1 == behind,
                Err(f) => result matches Err(e) && e@ == f,
            },
        decreases
            redpackage_reader::room(self.bytes@, start as nat),
            redpackage_reader::reach(
                redpackage_reader::class_rank(class@),
                start as nat,
                limit as nat,
            ),
            0nat,
            0nat,
            0nat,
    {
        if is_text(class, "worldCompiledEffectInfo") && self.unknown1 == 2 && is_effect_table(
            name,
        ) {
            return self.read_compiled_effect_property(name, place, end);
        }
        proof {
            redpackage_reader::lemma_type_rank(self@.classes, t@);
        }
        let last: usize = self.limit_of(t, place, end);
        match form_of(self.classes, t) {
            Form::Leaf => {
                return self.read_leaf(t, place, last);
            },
            _ => {},
        }
        if !self.can_go_on(class, t, place, last, start, limit) {
            return Err(malformed(place, "field bounds"));
        }
        self.read_inner(t, place, end)
    }

    /// Reads a value that is no plain one, up to its limit.
    fn read_inner(&self, t: &[char], place: usize, end: usize) -> (result: Result<
        (Value, usize),
        PackageError,
    >)
        requires
            !(redpackage_reader::shape(self@.classes, t@) is Leaf),
            place + 48 <= usize::MAX,
            end + 48 <= usize::MAX,
            self.bytes@.len() + 64 <= usize::MAX,
        ensures
            match value_at(
                self@,
                t@,
                place as nat,
                redpackage_reader::value_limit(t@, place as nat, end as nat),
            ) {
                Ok((m, behind)) => result matches Ok(r) && r.0@ == m && r.1 == behind,
                Err(f) => result matches Err(e) && e@ == f,
            },
        decreases
            redpackage_reader::room(self.bytes@, place as nat),
            redpackage_reader::span(
                self@.classes,
                t@,
                place as nat,
                redpackage_reader::value_limit(t@, place as nat, end as nat),
            ),
            t@.len(),
            3nat,
            1nat,
    {
        let last: usize = self.limit_of(t, place, end);
        if last > usize::MAX - 48 {
            proof {
                redpackage_layout_laws::lemma_array_size(self@.classes, t@);
            }
            assert(place + 16 > usize::MAX - 48);
            return match form_of(self.classes, t) {
                Form::Class => match u16_at(self.bytes, place) {
                    Ok(_) => Err(malformed(place, "field bounds")),
                    Err(error) => {
                        assert(redpackage_reader::fields_of(self.bytes@, place as nat) == Err::<
                            Seq<(nat, nat, nat)>,
                            redpackage::Fault,
                        >(error@));
                        Err(error)
                    },
                },
                _ => Err(unsupported(text_of(t).as_str())),
            };
        }
        self.read_value(t, place, last)
    }

    /// Reads a class.
    #[verifier::loop_isolation(false)]
    pub fn read_class(&self, class: &[char], start: usize, limit: usize) -> (result: Result<
        (Value, usize),
        PackageError,
    >)
        requires
            self.bytes@.len() + 64 <= usize::MAX,
            limit + 48 <= usize::MAX,
        ensures
            match class_at(self@, class@, start as nat, limit as nat) {
                Ok((m, end)) => result matches Ok(r) && r.0@ == m && r.1 == end,
                Err(f) => result matches Err(e) && e@ == f,
            },
        decreases
            redpackage_reader::room(self.bytes@, start as nat),
            redpackage_reader::reach(
                redpackage_reader::class_rank(class@),
                start as nat,
                limit as nat,
            ),
            0nat,
            2nat,
            0nat,
    {
        let size: usize = self.bytes.len();
        let fields: Vec<(u16, u16, usize)> = match read_fields(self.bytes, start) {
            Ok(fields) => fields,
            Err(error) => return Err(error),
        };
        let ghost numbers = redpackage_reader::field_numbers(fields@);
        let ghost wanted = class_at(self@, class@, start as nat, limit as nat);
        let class_text: String = text_of(class);
        let mut object: Vec<(String, Value)> = typed_fields(class_text.as_str());
        let mut consumed: usize = start + 2 + fields.len() * 8;
        let mut i: usize = 0;
        while i < fields.len()
            invariant
                i <= fields@.len(),
                wanted == record(
                    self@,
                    class@,
                    numbers,
                    i as nat,
                    start as nat,
                    limit as nat,
                    value::entry_models(object@),
                    consumed as nat,
                ),
            decreases fields@.len() - i,
        {
            let (name_index, type_index, place): (u16, u16, usize) = fields[i];
            assert(numbers[i as int] == (name_index as nat, type_index as nat, place as nat));
            let end: usize = if i + 1 < fields.len() {
                assert(numbers[i + 1] == (
                    fields@[i + 1].0 as nat,
                    fields@[i + 1].1 as nat,
                    fields@[i + 1].2 as nat,
                ));
                fields[i + 1].2
            } else {
                limit
            };
            assert(end == redpackage_reader::field_limit(numbers, i as nat, limit as nat));
            if place > end || end > limit {
                return Err(malformed(place, "field bounds"));
            }
            let name: &str = match self.name(name_index as usize, place) {
                Ok(name) => name,
                Err(error) => return Err(error),
            };
            let red_type: &str = match self.name(type_index as usize, place) {
                Ok(name) => name,
                Err(error) => return Err(error),
            };
            let name_chars: Vec<char> = chars_of(name);
            let type_chars: Vec<char> = chars_of(red_type);
            let (value, behind): (Value, usize) = match self.read_field(
                class,
                &name_chars,
                &type_chars,
                place,
                end,
                start,
                limit,
            ) {
                Ok(reading) => reading,
                Err(error) => return Err(
                    describe_field(class, name, red_type, place, end, &error),
                ),
            };
            if behind > end {
                return Err(malformed(behind, "field overrun"));
            }
            set_entry(&mut object, name, value);
            consumed = behind;
            i = i + 1;
        }
        Ok((Value::Object(object), consumed))
    }

    /// Reads a value.
    pub fn read_value(&self, t: &[char], start: usize, limit: usize) -> (result: Result<
        (Value, usize),
        PackageError,
    >)
        requires
            self.bytes@.len() + 64 <= usize::MAX,
            limit + 48 <= usize::MAX,
            start + 48 <= usize::MAX,
        ensures
            match value_at(self@, t@, start as nat, limit as nat) {
                Ok((m, end)) => result matches Ok(r) && r.0@ == m && r.1 == end,
                Err(f) => result matches Err(e) && e@ == f,
            },
        decreases
            redpackage_reader::room(self.bytes@, start as nat),
            redpackage_reader::span(self@.classes, t@, start as nat, limit as nat),
            t@.len(),
            3nat,
            0nat,
    {
        let size: usize = self.bytes.len();
        proof {
            redpackage_reader::lemma_shape(self@.classes, t@);
            redpackage_reader::lemma_ranks(self@.classes, t@);
        }
        match form_of(self.classes, t) {
            Form::Array(inner) => match u32_at(self.bytes, start) {
                Ok(count) => self.read_array(inner, start + 4, count as usize, limit),
                Err(error) => Err(error),
            },
            Form::Static(count, inner) => self.read_array(inner, start, count, limit),
            Form::Broken => Err(unsupported(text_of(t).as_str())),
            Form::Class => self.read_class(t, start, limit),
            Form::Leaf => self.read_leaf(t, start, limit),
        }
    }

    fn read_array(&self, inner: &[char], from: usize, count: usize, limit: usize) -> (result: Result<
        (Value, usize),
        PackageError,
    >)
        requires
            self.bytes@.len() + 64 <= usize::MAX,
            limit + 48 <= usize::MAX,
            from + 48 <= usize::MAX,
        ensures
            match elements(
                self@,
                inner@,
                from as nat,
                count as nat,
                limit as nat,
                Seq::empty(),
            ) {
                Ok((m, end)) => result matches Ok(r) && r.0@ == m && r.1 == end,
                Err(f) => result matches Err(e) && e@ == f,
            },
        decreases
            redpackage_reader::room(self.bytes@, from as nat),
            if count > 0 {
                redpackage_reader::span(
                    self@.classes,
                    inner@,
                    from as nat,
                    redpackage_reader::value_limit(inner@, from as nat, limit as nat),
                )
            } else {
                0
            },
            inner@.len(),
            4nat,
            0nat,
    {
        let ghost wanted = elements(
            self@,
            inner@,
            from as nat,
            count as nat,
            limit as nat,
            Seq::empty(),
        );
        let leaf: bool = match form_of(self.classes, inner) {
            Form::Leaf => true,
            _ => false,
        };
        let mut items: Vec<Value> = Vec::new();
        let mut cursor: usize = from;
        let mut left: usize = count;
        while left > 0
            invariant
                self.bytes@.len() + 64 <= usize::MAX,
                limit + 48 <= usize::MAX,
                from + 48 <= usize::MAX,
                left <= count,
                from <= cursor,
                cursor == from || (cursor <= limit && from < self.bytes@.len()),
                leaf == (redpackage_reader::shape(self@.classes, inner@) is Leaf),
                wanted == elements(
                    self@,
                    inner@,
                    from as nat,
                    count as nat,
                    limit as nat,
                    Seq::empty(),
                ),
                wanted == elements(
                    self@,
                    inner@,
                    cursor as nat,
                    left as nat,
                    limit as nat,
                    value::models(items@),
                ),
            decreases left,
        {
            proof {
                redpackage_reader::lemma_type_rank(self@.classes, inner@);
            }
            let last: usize = self.limit_of(inner, cursor, limit);
            let reading: Result<(Value, usize), PackageError> = if leaf {
                self.read_leaf(inner, cursor, last)
            } else {
                self.read_inner(inner, cursor, limit)
            };
            let (item, end): (Value, usize) = match reading {
                Ok(reading) => reading,
                Err(error) => return Err(error),
            };
            if end <= cursor || end > limit || cursor >= self.bytes.len() {
                return Err(malformed(cursor, "array element bounds"));
            }
            proof {
                value::lemma_models_push(items@, item);
            }
            items.push(item);
            cursor = end;
            left = left - 1;
        }
        Ok((Value::Array(items), cursor))
    }
}

} // verus!
