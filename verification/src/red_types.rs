//! The names of RED types, and what they say of the values under them.

use crate::number_text;
use crate::number_text::parse_unsigned;
use crate::text;
use crate::text::{chars_of, push_char, text_of};
use vstd::prelude::*;
use vstd::slice::slice_subrange;

verus! {

/// Tells whether characters are those of a text.
pub fn is_text(chars: &[char], wanted: &str) -> (result: bool)
    ensures
        result == (chars@ == wanted@),
{
    let mut same: bool = true;
    let mut i: usize = 0;
    for c in iter: wanted.chars()
        invariant
            iter.seq() == wanted@,
            i <= chars@.len(),
            same ==> i == iter.index(),
            same ==> chars@.subrange(0, i as int) =~= wanted@.subrange(0, i as int),
            !same ==> chars@ != wanted@,
    {
        if same {
            if i < chars.len() && chars[i] == c {
                i = i + 1;
            } else {
                assert(wanted@[i as int] == c);
                same = false;
            }
        }
    }
    if same && i == chars.len() {
        assert(chars@.subrange(0, i as int) =~= chars@);
        assert(wanted@.subrange(0, i as int) =~= wanted@);
        return true;
    }
    false
}

/// What follows a prefix.
pub open spec fn rest_after(text: Seq<char>, prefix: Seq<char>) -> Option<Seq<char>> {
    if text::starts_with(text, prefix) {
        Some(text.subrange(prefix.len() as int, text.len() as int))
    } else {
        None
    }
}

/// What follows a prefix.
pub fn after_prefix<'a>(chars: &'a [char], prefix: &str) -> (result: Option<&'a [char]>)
    ensures
        match rest_after(chars@, prefix@) {
            Some(rest) => result matches Some(r) && r@ == rest,
            None => result is None,
        },
{
    let mut i: usize = 0;
    for c in iter: prefix.chars()
        invariant
            iter.seq() == prefix@,
            i == iter.index(),
            i <= chars@.len(),
            chars@.subrange(0, i as int) =~= prefix@.subrange(0, i as int),
    {
        if i < chars.len() && chars[i] == c {
            i = i + 1;
        } else {
            proof {
                assert(prefix@[i as int] == c);
                if text::starts_with(chars@, prefix@) {
                    assert(chars@.subrange(0, prefix@.len() as int)[i as int] == prefix@[i as int]);
                }
            }
            return None;
        }
    }
    assert(prefix@.subrange(0, i as int) =~= prefix@);
    Some(slice_subrange(chars, i, chars.len()))
}

/// Where a character stands first, or the length of the text.
pub open spec fn first_index(text: Seq<char>, c: char) -> nat
    decreases text.len(),
{
    if text.len() == 0 || text[0] == c {
        0
    } else {
        1 + first_index(text.drop_first(), c)
    }
}

/// Where a character stands first is in the text or at its end.
pub proof fn lemma_first_index(text: Seq<char>, c: char)
    ensures
        first_index(text, c) <= text.len(),
        first_index(text, c) < text.len() ==> text[first_index(text, c) as int] == c,
        forall|i: int| 0 <= i < first_index(text, c) ==> text[i] != c,
    decreases text.len(),
{
    if text.len() > 0 && text[0] != c {
        let rest = text.drop_first();
        lemma_first_index(rest, c);
        assert forall|i: int| 0 <= i < first_index(text, c) implies text[i] != c by {
            if i > 0 {
                assert(text[i] == rest[i - 1]);
            }
        }
    }
}

/// The parts of a text before and after the first of a character.
pub open spec fn split_once(text: Seq<char>, c: char) -> Option<(Seq<char>, Seq<char>)> {
    let at = first_index(text, c) as int;
    if at < text.len() {
        Some((text.subrange(0, at), text.subrange(at + 1, text.len() as int)))
    } else {
        None
    }
}

fn split_chars<'a>(chars: &'a [char], c: char) -> (result: Option<(&'a [char], &'a [char])>)
    ensures
        match split_once(chars@, c) {
            Some(parts) => result matches Some(r) && r.0@ == parts.0 && r.1@ == parts.1,
            None => result is None,
        },
{
    let mut i: usize = 0;
    assert(chars@.subrange(0, chars@.len() as int) =~= chars@);
    while i < chars.len()
        invariant
            i <= chars@.len(),
            first_index(chars@, c) == i + first_index(
                chars@.subrange(i as int, chars@.len() as int),
                c,
            ),
        decreases chars@.len() - i,
    {
        let ghost rest = chars@.subrange(i as int, chars@.len() as int);
        assert(rest[0] == chars@[i as int]);
        if chars[i] == c {
            return Some((slice_subrange(chars, 0, i), slice_subrange(chars, i + 1, chars.len())));
        }
        assert(rest.drop_first() =~= chars@.subrange(i + 1, chars@.len() as int));
        i = i + 1;
    }
    None
}

/// A count, a comma and a type.
pub open spec fn count_type(text: Seq<char>) -> Option<(nat, Seq<char>)> {
    match split_once(text, ',') {
        None => None,
        Some((count, inner)) => match number_text::unsigned_value(count, usize::MAX as nat) {
            None => None,
            Some(count) => Some((count, inner)),
        },
    }
}

/// A count in square brackets and a type.
pub open spec fn fixed_array_type(text: Seq<char>) -> Option<(nat, Seq<char>)> {
    if text.len() == 0 || text[0] != '[' {
        None
    } else {
        match split_once(text.subrange(1, text.len() as int), ']') {
            None => None,
            Some((count, inner)) => if inner.len() == 0 {
                None
            } else {
                match number_text::unsigned_value(count, usize::MAX as nat) {
                    None => None,
                    Some(count) => Some((count, inner)),
                }
            },
        }
    }
}

/// Splits a count, a comma and a type.
pub fn split_count<'a>(chars: &'a [char]) -> (result: Option<(usize, &'a [char])>)
    ensures
        match count_type(chars@) {
            Some((count, inner)) => result matches Some(r) && r.0 == count && r.1@ == inner,
            None => result is None,
        },
{
    match split_chars(chars, ',') {
        None => None,
        Some((count, inner)) => match parse_unsigned(count, usize::MAX as u64) {
            None => None,
            Some(count) => Some((count as usize, inner)),
        },
    }
}

/// Splits a count in square brackets and a type.
pub fn split_brackets<'a>(chars: &'a [char]) -> (result: Option<(usize, &'a [char])>)
    ensures
        match fixed_array_type(chars@) {
            Some((count, inner)) => result matches Some(r) && r.0 == count && r.1@ == inner,
            None => result is None,
        },
{
    if chars.len() == 0 || chars[0] != '[' {
        return None;
    }
    match split_chars(slice_subrange(chars, 1, chars.len()), ']') {
        None => None,
        Some((count, inner)) => if inner.len() == 0 {
            None
        } else {
            match parse_unsigned(count, usize::MAX as u64) {
                None => None,
                Some(count) => Some((count as usize, inner)),
            }
        },
    }
}

/// Splits the type of an array of fixed length.
pub fn split_fixed_array_type(value: &str) -> (result: Option<(usize, String)>)
    ensures
        match fixed_array_type(value@) {
            Some((count, inner)) => result matches Some(r) && r.0 == count && r.1@ == inner,
            None => result is None,
        },
{
    let chars: Vec<char> = chars_of(value);
    match split_brackets(&chars) {
        None => None,
        Some((count, inner)) => Some((count, text_of(inner))),
    }
}

/// The type of a handle.
pub open spec fn is_handle(t: Seq<char>) -> bool {
    text::starts_with(t, "handle:"@) || text::starts_with(t, "whandle:"@)
}

/// The type of a resource reference.
pub open spec fn is_reference(t: Seq<char>) -> bool {
    text::starts_with(t, "rRef:"@) || text::starts_with(t, "raRef:"@)
}

/// Tells whether a type is that of a handle.
pub fn names_handle(t: &[char]) -> (result: bool)
    ensures
        result == is_handle(t@),
{
    after_prefix(t, "handle:").is_some() || after_prefix(t, "whandle:").is_some()
}

/// Tells whether a type is that of a resource reference.
pub fn names_reference(t: &[char]) -> (result: bool)
    ensures
        result == is_reference(t@),
{
    after_prefix(t, "rRef:").is_some() || after_prefix(t, "raRef:").is_some()
}

/// The size of the values of a type, where all have the same.
pub open spec fn type_size(t: Seq<char>) -> Option<nat> {
    if t == "Bool"@ || t == "Int8"@ || t == "Uint8"@ {
        Some(1)
    } else if t == "Int16"@ || t == "Uint16"@ || t == "CName"@ {
        Some(2)
    } else if t == "Int32"@ || t == "Uint32"@ || t == "Float"@ {
        Some(4)
    } else if t == "Int64"@ || t == "Uint64"@ || t == "Double"@ || t == "CRUID"@ || t
        == "CDateTime"@ || t == "TweakDBID"@ || t == "gamedataLocKeyWrapper"@ {
        Some(8)
    } else if t == "CGUID"@ {
        Some(16)
    } else if is_handle(t) {
        Some(4)
    } else if is_reference(t) {
        Some(2)
    } else {
        None
    }
}

/// The size of the values of a type, where all have the same.
pub fn fixed_size(t: &[char]) -> (result: Option<usize>)
    ensures
        match type_size(t@) {
            Some(size) => result matches Some(r) && r == size,
            None => result is None,
        },
        result matches Some(r) ==> 1 <= r <= 16,
{
    if is_text(t, "Bool") || is_text(t, "Int8") || is_text(t, "Uint8") {
        Some(1)
    } else if is_text(t, "Int16") || is_text(t, "Uint16") || is_text(t, "CName") {
        Some(2)
    } else if is_text(t, "Int32") || is_text(t, "Uint32") || is_text(t, "Float") {
        Some(4)
    } else if is_text(t, "Int64") || is_text(t, "Uint64") || is_text(t, "Double") || is_text(
        t,
        "CRUID",
    ) || is_text(t, "CDateTime") || is_text(t, "TweakDBID") || is_text(
        t,
        "gamedataLocKeyWrapper",
    ) {
        Some(8)
    } else if is_text(t, "CGUID") {
        Some(16)
    } else if names_handle(t) {
        Some(4)
    } else if names_reference(t) {
        Some(2)
    } else {
        None
    }
}

/// The types whose values have a size of their own each.
pub open spec fn varies(t: Seq<char>) -> bool {
    t == "String"@ || t == "NodeRef"@ || t == "LocalizationString"@ || t == "DataBuffer"@ || t
        == "SharedDataBuffer"@ || text::starts_with(t, "array:"@) || text::starts_with(
        t,
        "static:"@,
    ) || (t.len() > 0 && t[0] == '[') || text::starts_with(t, "curveData:"@)
        || text::starts_with(t, "multiChannelCurve:"@)
}

/// Tells whether the values of a type have a size of their own each.
pub fn is_variable_size(t: &[char]) -> (result: bool)
    ensures
        result == varies(t@),
{
    is_text(t, "String") || is_text(t, "NodeRef") || is_text(t, "LocalizationString") || is_text(
        t,
        "DataBuffer",
    ) || is_text(t, "SharedDataBuffer") || after_prefix(t, "array:").is_some() || after_prefix(
        t,
        "static:",
    ).is_some() || (t.len() > 0 && t[0] == '[') || after_prefix(t, "curveData:").is_some()
        || after_prefix(t, "multiChannelCurve:").is_some()
}

/// The properties that hold a package.
pub open spec fn holds_package(class_name: Seq<char>, property: Seq<char>) -> bool {
    ||| (class_name == "appearanceAppearanceDefinition"@ || class_name == "entEntityTemplate"@)
        && property == "compiledData"@
    ||| class_name == "inkWidgetLibraryItem"@ && property == "packageData"@
    ||| (class_name == "entEntityInstanceData"@ || class_name
        == "gamePersistentStateDataResource"@) && property == "buffer"@
}

/// Tells whether a property holds a package.
pub fn is_redpackage_property(class_name: &[char], property: &[char]) -> (result: bool)
    ensures
        result == holds_package(class_name@, property@),
{
    ((is_text(class_name, "appearanceAppearanceDefinition") || is_text(
        class_name,
        "entEntityTemplate",
    )) && is_text(property, "compiledData")) || (is_text(class_name, "inkWidgetLibraryItem")
        && is_text(property, "packageData")) || ((is_text(class_name, "entEntityInstanceData")
        || is_text(class_name, "gamePersistentStateDataResource")) && is_text(property, "buffer"))
}

/// The classes that are kept as they are stored.
pub open spec fn opaque_data(t: Seq<char>) -> bool {
    t == "Variant"@ || t == "AITrafficWorkspotCompiled"@ || t == "animAnimationBufferCompressed"@
        || t == "gameCompiledSmartObjectData"@ || t == "gameSmartObjectAnimationDatabase"@ || t
        == "worldCompiledEffectInfo"@
}

/// Tells whether a class is kept as it is stored.
pub fn is_opaque_custom_data(t: &[char]) -> (result: bool)
    ensures
        result == opaque_data(t@),
{
    is_text(t, "Variant") || is_text(t, "AITrafficWorkspotCompiled") || is_text(
        t,
        "animAnimationBufferCompressed",
    ) || is_text(t, "gameCompiledSmartObjectData") || is_text(
        t,
        "gameSmartObjectAnimationDatabase",
    ) || is_text(t, "worldCompiledEffectInfo")
}

/// The classes whose bytes after the properties are kept as they are stored.
pub open spec fn opaque_tail(t: Seq<char>) -> bool {
    t == "animRig"@ || t == "C2dArray"@ || t == "CMaterialTemplate"@ || t
        == "CPhysicsDecorationResource"@ || t == "gameLocationResource"@ || t
        == "gameLootResourceData"@ || t == "meshMeshParamSpeedTreeWind"@ || t
        == "physicsColliderMesh"@ || t == "physicsMaterialLibraryResource"@ || t
        == "scnAnimName"@ || t == "worldInstancedMeshNode"@ || t == "worldInstancedOccluderNode"@
        || t == "worldTrafficCompiledNode"@ || t == "worldTrafficLanesSpotsResource"@ || t
        == "worldTrafficPersistentLaneConnectionsResource"@ || t
        == "worldTrafficPersistentLanePolygonResource"@ || t == "worldTrafficPersistentResource"@
        || t == "worldTrafficPersistentSpatialResource"@
}

/// Tells whether the bytes after the properties of a class are kept.
pub fn is_opaque_appendix(t: &[char]) -> (result: bool)
    ensures
        result == opaque_tail(t@),
{
    is_text(t, "animRig") || is_text(t, "C2dArray") || is_text(t, "CMaterialTemplate") || is_text(
        t,
        "CPhysicsDecorationResource",
    ) || is_text(t, "gameLocationResource") || is_text(t, "gameLootResourceData") || is_text(
        t,
        "meshMeshParamSpeedTreeWind",
    ) || is_text(t, "physicsColliderMesh") || is_text(t, "physicsMaterialLibraryResource")
        || is_text(t, "scnAnimName") || is_text(t, "worldInstancedMeshNode") || is_text(
        t,
        "worldInstancedOccluderNode",
    ) || is_text(t, "worldTrafficCompiledNode") || is_text(t, "worldTrafficLanesSpotsResource")
        || is_text(t, "worldTrafficPersistentLaneConnectionsResource") || is_text(
        t,
        "worldTrafficPersistentLanePolygonResource",
    ) || is_text(t, "worldTrafficPersistentResource") || is_text(
        t,
        "worldTrafficPersistentSpatialResource",
    )
}

/// The name of an interpolation between the points of a curve.
pub open spec fn interpolation(value: nat) -> Option<Seq<char>> {
    if value == 0 {
        Some("Constant"@)
    } else if value == 1 {
        Some("Linear"@)
    } else if value == 2 {
        Some("BezierQuadratic"@)
    } else if value == 3 {
        Some("BezierCubic"@)
    } else if value == 4 {
        Some("Hermite"@)
    } else {
        None
    }
}

/// The name of an interpolation between the points of a curve.
pub fn interpolation_type(value: u8) -> (result: Option<&'static str>)
    ensures
        match interpolation(value as nat) {
            Some(name) => result matches Some(r) && r@ == name,
            None => result is None,
        },
{
    match value {
        0 => Some("Constant"),
        1 => Some("Linear"),
        2 => Some("BezierQuadratic"),
        3 => Some("BezierCubic"),
        4 => Some("Hermite"),
        _ => None,
    }
}

/// The name of a link between the segments of a curve.
pub open spec fn segment_link(value: nat) -> Option<Seq<char>> {
    if value == 0 {
        Some("ESLT_Normal"@)
    } else if value == 1 {
        Some("ESLT_Smooth"@)
    } else if value == 2 {
        Some("ESLT_SmoothSymmetric"@)
    } else {
        None
    }
}

/// The name of a link between the segments of a curve.
pub fn segment_link_type(value: u8) -> (result: Option<&'static str>)
    ensures
        match segment_link(value as nat) {
            Some(name) => result matches Some(r) && r@ == name,
            None => result is None,
        },
{
    match value {
        0 => Some("ESLT_Normal"),
        1 => Some("ESLT_Smooth"),
        2 => Some("ESLT_SmoothSymmetric"),
        _ => None,
    }
}

/// The name of a link between the channels of a curve.
pub open spec fn channel_link(value: nat) -> Option<Seq<char>> {
    if value == 0 {
        Some("Normal"@)
    } else if value == 1 {
        Some("Smooth"@)
    } else if value == 2 {
        Some("SmoothSymmertric"@)
    } else {
        None
    }
}

/// The name of a link between the channels of a curve.
pub fn channel_link_type(value: u8) -> (result: Option<&'static str>)
    ensures
        match channel_link(value as nat) {
            Some(name) => result matches Some(r) && r@ == name,
            None => result is None,
        },
{
    match value {
        0 => Some("Normal"),
        1 => Some("Smooth"),
        2 => Some("SmoothSymmertric"),
        _ => None,
    }
}

/// The name of the flags of an import.
pub open spec fn flags_name(flags: nat) -> Seq<char> {
    if flags == 1 {
        "Obligatory"@
    } else if flags == 2 {
        "Template"@
    } else if flags == 4 {
        "Soft"@
    } else if flags == 8 {
        "Embedded"@
    } else if flags == 16 {
        "Inplace"@
    } else {
        "Default"@
    }
}

/// The name of the flags of an import.
pub fn import_flags(flags: u16) -> (result: &'static str)
    ensures
        result@ == flags_name(flags as nat),
{
    match flags {
        1 => "Obligatory",
        2 => "Template",
        4 => "Soft",
        8 => "Embedded",
        16 => "Inplace",
        _ => "Default",
    }
}

/// A hexadecimal digit.
pub open spec fn hex_digit(value: nat) -> char {
    if value < 10 {
        (48 + value) as char
    } else {
        (87 + value) as char
    }
}

/// Bytes as hexadecimal digits.
pub open spec fn hex_digits(bytes: Seq<u8>) -> Seq<char>
    decreases bytes.len(),
{
    if bytes.len() == 0 {
        Seq::empty()
    } else {
        hex_digits(bytes.drop_last()).push(hex_digit(bytes.last() as nat / 16)).push(
            hex_digit(bytes.last() as nat % 16),
        )
    }
}

/// Writes a hexadecimal digit.
pub fn hex_char(value: u8) -> (result: char)
    requires
        value < 16,
    ensures
        result == hex_digit(value as nat),
{
    if value < 10 {
        (48 + value) as char
    } else {
        (87 + value) as char
    }
}

/// Writes bytes as hexadecimal digits.
pub fn hex(bytes: &[u8]) -> (result: String)
    ensures
        result@ == hex_digits(bytes@),
{
    let mut text: String = String::new();
    let mut i: usize = 0;
    assert(text@ =~= hex_digits(bytes@.subrange(0, 0)));
    while i < bytes.len()
        invariant
            i <= bytes@.len(),
            text@ == hex_digits(bytes@.subrange(0, i as int)),
        decreases bytes@.len() - i,
    {
        let byte: u8 = bytes[i];
        push_char(&mut text, hex_char(byte / 16));
        push_char(&mut text, hex_char(byte % 16));
        assert(bytes@.subrange(0, i + 1).drop_last() =~= bytes@.subrange(0, i as int));
        i = i + 1;
    }
    assert(bytes@.subrange(0, i as int) =~= bytes@);
    text
}

} // verus!
