//! The tables of compiled effects are written so that they are read back.

use crate::binary;
use crate::entries;
use crate::number_text;
use crate::redpackage;
use crate::redpackage::Fault;
use crate::redpackage_decoder;
use crate::redpackage_encoder;
use crate::redpackage_expansion_laws;
use crate::redpackage_expansion_laws::{plain, plain_entries};
use crate::redpackage_kept_laws;
use crate::redpackage_layout_laws;
use crate::redpackage_layout_laws::{alike, Move};
use crate::redpackage_pools;
use crate::redpackage_pools::{Source, State};
use crate::redpackage_reader;
use crate::redpackage_reader::Package;
use crate::redpackage_state_laws::{kept, Scene};
use crate::redpackage_value_laws;
use crate::sequence;
use crate::value;
use crate::value::Model;
use vstd::prelude::*;

verus! {

/// What stands under the keys after a value was put under one.
proof fn lemma_put(list: Seq<(Seq<char>, Model)>, key: Seq<char>, m: Model, other: Seq<char>)
    requires
        entries::rising(list),
    ensures
        entries::rising(entries::put(list, key, m)),
        entries::find(entries::put(list, key, m), other) == if other == key {
            Some(m)
        } else {
            entries::find(list, other)
        },
        plain_entries(list) && plain(m) ==> plain_entries(entries::put(list, key, m)),
{
    entries::law_put_rising(list, key, m);
    entries::law_find_put(list, key, m);
    if other != key {
        entries::law_find_other(list, key, m, other);
    }
    if plain_entries(list) && plain(m) {
        redpackage_expansion_laws::lemma_put_plain(list, key, m);
    }
}

/// Entries with a type.
spec fn is_typed(list: Seq<(Seq<char>, Model)>) -> bool {
    entries::rising(list) && plain_entries(list) && entries::find(list, "$type"@) is Some
}

proof fn lemma_typed(t: Seq<char>)
    ensures
        is_typed(redpackage_decoder::typed(t)),
{
    lemma_put(Seq::empty(), "$type"@, Model::Text(t), "$type"@);
}

proof fn lemma_typed_put(list: Seq<(Seq<char>, Model)>, key: Seq<char>, m: Model)
    requires
        is_typed(list),
        plain(m),
    ensures
        is_typed(entries::put(list, key, m)),
{
    lemma_put(list, key, m, "$type"@);
}

proof fn lemma_typed_plain(list: Seq<(Seq<char>, Model)>)
    requires
        is_typed(list),
    ensures
        plain(Model::Object(list)),
{
    reveal_strlit("$type");
    reveal_strlit("$package_handle");
    assert("$type"@.len() == 5 && "$package_handle"@.len() == 15);
    redpackage_expansion_laws::lemma_no_handle(list, "$type"@);
}

// ---------------------------------------------------------------------------
// Floats
// ---------------------------------------------------------------------------

spec fn distinct(keys: Seq<Seq<char>>) -> bool {
    forall|i: int, j: int| 0 <= i < j < keys.len() ==> #[trigger] keys[i] != #[trigger] keys[j]
}

proof fn lemma_singles(
    object: Seq<(Seq<char>, Model)>,
    bytes: Seq<u8>,
    at: nat,
    keys: Seq<Seq<char>>,
    result: Seq<(Seq<char>, Model)>,
)
    requires
        is_typed(object),
        distinct(keys),
        redpackage_decoder::singles(object, bytes, at, keys) == Ok::<
            Seq<(Seq<char>, Model)>,
            Fault,
        >(result),
    ensures
        is_typed(result),
        forall|k: Seq<char>|
            !keys.contains(k) ==> #[trigger] entries::find(result, k) == entries::find(object, k),
        forall|j: int|
            0 <= j < keys.len() ==> redpackage::number(bytes, (at + 4 * j) as nat, 4) is Ok
                && entries::find(result, #[trigger] keys[j]) == Some(
                value::single(redpackage::number(bytes, (at + 4 * j) as nat, 4)->Ok_0),
            ),
    decreases keys.len(),
{
    if keys.len() > 0 {
        let bits = redpackage::number(bytes, at, 4)->Ok_0;
        let next = entries::put(object, keys[0], value::single(bits));
        let rest = keys.drop_first();
        lemma_typed_put(object, keys[0], value::single(bits));
        assert forall|i: int, j: int| 0 <= i < j < rest.len() implies #[trigger] rest[i]
            != #[trigger] rest[j] by {
            assert(keys[i + 1] != keys[j + 1]);
        }
        lemma_singles(next, bytes, at + 4, rest, result);
        assert(!rest.contains(keys[0])) by {
            if rest.contains(keys[0]) {
                let j = choose|j: int| 0 <= j < rest.len() && rest[j] == keys[0];
                assert(keys[j + 1] != keys[0]);
            }
        }
        lemma_put(object, keys[0], value::single(bits), keys[0]);
        assert forall|k: Seq<char>| !keys.contains(k) implies #[trigger] entries::find(result, k)
            == entries::find(object, k) by {
            if rest.contains(k) {
                let j = choose|j: int| 0 <= j < rest.len() && rest[j] == k;
                assert(keys[j + 1] == k);
            }
            assert(keys[0] != k);
            lemma_put(object, keys[0], value::single(bits), k);
        }
        assert forall|j: int| 0 <= j < keys.len() implies redpackage::number(
            bytes,
            (at + 4 * j) as nat,
            4,
        ) is Ok && entries::find(result, #[trigger] keys[j]) == Some(
            value::single(redpackage::number(bytes, (at + 4 * j) as nat, 4)->Ok_0),
        ) by {
            if j > 0 {
                assert(rest[j - 1] == keys[j]);
                assert(at + 4 + 4 * (j - 1) == at + 4 * j);
            }
        }
    }
}

/// Floats are written as the bytes that they were read from.
proof fn lemma_single_members(
    x: Model,
    keys: Seq<Seq<char>>,
    i: nat,
    start: nat,
    reason: Seq<char>,
    bytes: Seq<u8>,
    source: Seq<u8>,
    at: nat,
    written: Seq<u8>,
)
    requires
        i <= keys.len(),
        at + 4 * keys.len() <= source.len(),
        forall|j: int|
            0 <= j < keys.len() ==> value::member(x, #[trigger] keys[j]) == Some(
                value::single(redpackage::number(source, (at + 4 * j) as nat, 4)->Ok_0),
            ),
        redpackage_encoder::single_members(x, keys, i, start, reason, bytes) == Ok::<
            Seq<u8>,
            Fault,
        >(written),
    ensures
        written == bytes + source.subrange((at + 4 * i) as int, (at + 4 * keys.len()) as int),
    decreases keys.len() - i,
{
    if i == keys.len() {
        assert(written =~= bytes + source.subrange(
            (at + 4 * i) as int,
            (at + 4 * keys.len()) as int,
        ));
    } else {
        let part = source.subrange((at + 4 * i) as int, (at + 4 * i + 4) as int);
        binary::law_write_read(part);
        binary::lemma_byte_ranges();
        let bits = redpackage::number(source, at + 4 * i, 4)->Ok_0;
        assert(keys[i as int] == keys[i as int]);
        assert(binary::le_bytes(bits, 4) == part);
        lemma_single_members(
            x,
            keys,
            i + 1,
            start,
            reason,
            bytes + part,
            source,
            at,
            written,
        );
        assert(written =~= bytes + source.subrange(
            (at + 4 * i) as int,
            (at + 4 * keys.len()) as int,
        ));
    }
}

proof fn lemma_position_keys()
    ensures
        distinct(redpackage_decoder::position_keys()),
        distinct(redpackage_decoder::rotation_keys()),
{
    reveal_strlit("X");
    reveal_strlit("Y");
    reveal_strlit("Z");
    reveal_strlit("i");
    reveal_strlit("j");
    reveal_strlit("k");
    reveal_strlit("r");
    assert("X"@[0] == 'X' && "Y"@[0] == 'Y' && "Z"@[0] == 'Z');
    assert("i"@[0] == 'i' && "j"@[0] == 'j' && "k"@[0] == 'k' && "r"@[0] == 'r');
}

// ---------------------------------------------------------------------------
// Items
// ---------------------------------------------------------------------------

proof fn lemma_kept_floats(
    p: Package,
    q: Package,
    name: Seq<char>,
    t: Seq<char>,
    keys: Seq<Seq<char>>,
    at: nat,
    m: Model,
    start: nat,
    reason: Seq<char>,
    spot: nat,
    written: Seq<u8>,
)
    requires
        alike(p, q),
        distinct(keys),
        keys.len() > 0,
        redpackage_decoder::singles(redpackage_decoder::typed(t), p.bytes, at, keys) is Ok,
        m == Model::Object(
            redpackage_decoder::singles(redpackage_decoder::typed(t), p.bytes, at, keys)->Ok_0,
        ),
        redpackage_encoder::single_members(m, keys, 0, start, reason, Seq::empty()) == Ok::<
            Seq<u8>,
            Fault,
        >(written),
        sequence::stands(q.bytes, spot, written),
    ensures
        plain(m),
        at + 4 * keys.len() <= p.bytes.len(),
        written == p.bytes.subrange(at as int, (at + 4 * keys.len()) as int),
        redpackage_layout_laws::moves(
            Move { p, q, a: at, b: spot, hi: at + 4 * keys.len() },
        ),
{
    let result = m->Object_0;
    lemma_typed(t);
    lemma_singles(redpackage_decoder::typed(t), p.bytes, at, keys, result);
    lemma_typed_plain(result);
    let last = keys[keys.len() - 1];
    assert(redpackage::number(p.bytes, (at + 4 * (keys.len() - 1)) as nat, 4) is Ok);
    lemma_single_members(m, keys, 0, start, reason, Seq::empty(), p.bytes, at, written);
    assert(written =~= p.bytes.subrange(at as int, (at + 4 * keys.len()) as int));
    redpackage_value_laws::lemma_moves(p, q, at, spot, at + 4 * keys.len());
}

proof fn lemma_kept_placement(
    p: Package,
    q: Package,
    at: nat,
    m: Model,
    start: nat,
    spot: nat,
    written: Seq<u8>,
)
    requires
        alike(p, q),
        redpackage_decoder::placement_info(p.bytes, at) == Ok::<(Model, nat), Fault>((m, at + 4)),
        redpackage_encoder::placement_bytes(m, start) == Ok::<Seq<u8>, Fault>(written),
        sequence::stands(q.bytes, spot, written),
    ensures
        plain(m),
        written.len() == 4,
        redpackage_decoder::placement_info(q.bytes, spot) == Ok::<(Model, nat), Fault>(
            (m, spot + 4),
        ),
{
    reveal_strlit("flags");
    reveal_strlit("placementTagIndex");
    reveal_strlit("relativePositionIndex");
    reveal_strlit("relativeRotationIndex");
    let a = "flags"@;
    let b = "placementTagIndex"@;
    let c = "relativePositionIndex"@;
    let d = "relativeRotationIndex"@;
    assert(a.len() == 5 && b.len() == 17 && c.len() == 21 && d.len() == 21);
    assert(c[8] == 'P' && d[8] == 'R');
    let tag = p.bytes[at as int] as nat;
    let position = p.bytes[at as int + 1] as nat;
    let rotation = p.bytes[at as int + 2] as nat;
    let flags = p.bytes[at as int + 3] as nat;
    let e0 = redpackage_decoder::typed("worldCompiledEffectPlacementInfo"@);
    let e1 = entries::put(e0, a, value::integer(flags as int));
    let e2 = entries::put(e1, b, value::integer(tag as int));
    let e3 = entries::put(e2, c, value::integer(position as int));
    let e4 = entries::put(e3, d, value::integer(rotation as int));
    lemma_typed("worldCompiledEffectPlacementInfo"@);
    lemma_typed_put(e0, a, value::integer(flags as int));
    lemma_typed_put(e1, b, value::integer(tag as int));
    lemma_typed_put(e2, c, value::integer(position as int));
    lemma_typed_put(e3, d, value::integer(rotation as int));
    lemma_typed_plain(e4);
    lemma_put(e0, a, value::integer(flags as int), a);
    lemma_put(e1, b, value::integer(tag as int), a);
    lemma_put(e2, c, value::integer(position as int), a);
    lemma_put(e3, d, value::integer(rotation as int), a);
    lemma_put(e1, b, value::integer(tag as int), b);
    lemma_put(e2, c, value::integer(position as int), b);
    lemma_put(e3, d, value::integer(rotation as int), b);
    lemma_put(e2, c, value::integer(position as int), c);
    lemma_put(e3, d, value::integer(rotation as int), c);
    lemma_put(e3, d, value::integer(rotation as int), d);
    assert(m == Model::Object(e4));
    assert(written =~= seq![tag as u8, position as u8, rotation as u8, flags as u8]);
    sequence::lemma_stands_index(q.bytes, spot, written, 0);
    sequence::lemma_stands_index(q.bytes, spot, written, 1);
    sequence::lemma_stands_index(q.bytes, spot, written, 2);
    sequence::lemma_stands_index(q.bytes, spot, written, 3);
}

proof fn lemma_kept_event(
    p: Package,
    q: Package,
    at: nat,
    m: Model,
    start: nat,
    spot: nat,
    written: Seq<u8>,
)
    requires
        alike(p, q),
        redpackage_decoder::event_info(p.bytes, at) == Ok::<(Model, nat), Fault>((m, at + 32)),
        redpackage_encoder::event_bytes(m, start) == Ok::<Seq<u8>, Fault>(written),
        sequence::stands(q.bytes, spot, written),
    ensures
        plain(m),
        written.len() == 32,
        redpackage_decoder::event_info(q.bytes, spot) == Ok::<(Model, nat), Fault>((m, spot + 32)),
{
    reveal_strlit("componentIndexMask");
    reveal_strlit("eventRUID");
    reveal_strlit("flags");
    reveal_strlit("placementIndexMask");
    let a = "componentIndexMask"@;
    let b = "eventRUID"@;
    let c = "flags"@;
    let d = "placementIndexMask"@;
    assert(a.len() == 18 && b.len() == 9 && c.len() == 5 && d.len() == 18);
    assert(a[0] == 'c' && d[0] == 'p');
    binary::lemma_byte_ranges();
    let event = redpackage::number(p.bytes, at, 8)->Ok_0;
    let placements = redpackage::number(p.bytes, at + 8, 8)->Ok_0;
    let components = redpackage::number(p.bytes, at + 16, 8)->Ok_0;
    let flags = redpackage::byte_at(p.bytes, at + 24)->Ok_0;
    binary::law_write_read(p.bytes.subrange(at as int, (at + 8) as int));
    binary::law_write_read(p.bytes.subrange((at + 8) as int, (at + 16) as int));
    binary::law_write_read(p.bytes.subrange((at + 16) as int, (at + 24) as int));
    let ma = Model::Text(number_text::decimal(components));
    let mb = Model::Text(number_text::decimal(event));
    let mc = value::integer(flags as int);
    let md = Model::Text(number_text::decimal(placements));
    let e0 = redpackage_decoder::typed("worldCompiledEffectEventInfo"@);
    let e1 = entries::put(e0, a, ma);
    let e2 = entries::put(e1, b, mb);
    let e3 = entries::put(e2, c, mc);
    let e4 = entries::put(e3, d, md);
    lemma_typed("worldCompiledEffectEventInfo"@);
    lemma_typed_put(e0, a, ma);
    lemma_typed_put(e1, b, mb);
    lemma_typed_put(e2, c, mc);
    lemma_typed_put(e3, d, md);
    lemma_typed_plain(e4);
    lemma_put(e0, a, ma, a);
    lemma_put(e1, b, mb, a);
    lemma_put(e2, c, mc, a);
    lemma_put(e3, d, md, a);
    lemma_put(e1, b, mb, b);
    lemma_put(e2, c, mc, b);
    lemma_put(e3, d, md, b);
    lemma_put(e2, c, mc, c);
    lemma_put(e3, d, md, c);
    lemma_put(e3, d, md, d);
    assert(m == Model::Object(e4));
    number_text::law_parse_decimal(event, u64::MAX as nat);
    number_text::law_parse_decimal(placements, u64::MAX as nat);
    number_text::law_parse_decimal(components, u64::MAX as nat);
    let one = binary::le_bytes(event, 8);
    let two = binary::le_bytes(placements, 8);
    let three = binary::le_bytes(components, 8);
    let tail = seq![flags as u8, 0u8, 0u8, 0u8, 0u8, 0u8, 0u8, 0u8];
    binary::lemma_le_bytes_len(event, 8);
    binary::lemma_le_bytes_len(placements, 8);
    binary::lemma_le_bytes_len(components, 8);
    assert(written =~= one + two + three + tail);
    sequence::lemma_stands_split(q.bytes, spot, one + two + three, tail);
    sequence::lemma_stands_split(q.bytes, spot, one + two, three);
    sequence::lemma_stands_split(q.bytes, spot, one, two);
    binary::lemma_number_stands(q.bytes, spot, event, 8);
    binary::lemma_number_stands(q.bytes, spot + 8, placements, 8);
    binary::lemma_number_stands(q.bytes, spot + 16, components, 8);
    sequence::lemma_stands_index(q.bytes, spot + 24, tail, 0);
}

/// An item of a table is written so that it is read back.
proof fn lemma_kept_item(
    sc: Scene,
    state: State,
    q: Package,
    name: Seq<char>,
    at: nat,
    m: Model,
    e: nat,
    start: nat,
    spot: nat,
    written: Seq<u8>,
    after: State,
)
    requires
        kept(sc, state),
        alike(sc.package, q),
        redpackage_decoder::effect_item(sc.package, name, at) == Ok::<(Model, nat), Fault>((m, e)),
        redpackage_encoder::effect_item_bytes(state, name, m, start) == Ok::<
            (Seq<u8>, State),
            Fault,
        >((written, after)),
        sequence::stands(q.bytes, spot, written),
    ensures
        after == state,
        redpackage_decoder::effect_item(q, name, spot) == Ok::<(Model, nat), Fault>(
            (m, spot + written.len()),
        ),
{
    let p = sc.package;
    lemma_position_keys();
    if name == "placementTags"@ || name == "componentNames"@ {
        let index = redpackage::number(p.bytes, at, 2)->Ok_0;
        let tag = p.names[index as int];
        redpackage_kept_laws::lemma_stored("CName"@, "string"@, tag);
        binary::lemma_le_bytes_len(redpackage_pools::with_name(state, tag)->Ok_0.0, 2);
        redpackage_kept_laws::lemma_written_name(sc, state, q, index, spot);
    } else if name == "relativePositions"@ {
        let keys = redpackage_decoder::position_keys();
        lemma_kept_floats(p, q, name, "Vector3"@, keys, at, m, start, "Vector3"@, spot, written);
        let v = Move { p, q, a: at, b: spot, hi: at + 12 };
        redpackage_layout_laws::lemma_moved_item(v, name, at, m, e);
    } else if name == "relativeRotations"@ {
        let keys = redpackage_decoder::rotation_keys();
        lemma_kept_floats(
            p,
            q,
            name,
            "Quaternion"@,
            keys,
            at,
            m,
            start,
            "Quaternion"@,
            spot,
            written,
        );
        let v = Move { p, q, a: at, b: spot, hi: at + 16 };
        redpackage_layout_laws::lemma_moved_item(v, name, at, m, e);
    } else if name == "placementInfos"@ {
        lemma_kept_placement(p, q, at, m, start, spot, written);
    } else {
        lemma_kept_event(p, q, at, m, start, spot, written);
    }
}

/// The items of a table hold no handles.
proof fn lemma_item_plain(p: Package, name: Seq<char>, at: nat, m: Model, e: nat)
    requires
        redpackage_decoder::effect_item(p, name, at) == Ok::<(Model, nat), Fault>((m, e)),
    ensures
        plain(m),
{
    lemma_position_keys();
    if name == "placementTags"@ || name == "componentNames"@ {
        let index = redpackage::number(p.bytes, at, 2)->Ok_0;
        redpackage_kept_laws::lemma_stored("CName"@, "string"@, p.names[index as int]);
    } else if name == "relativePositions"@ {
        lemma_typed("Vector3"@);
        lemma_singles(
            redpackage_decoder::typed("Vector3"@),
            p.bytes,
            at,
            redpackage_decoder::position_keys(),
            m->Object_0,
        );
        lemma_typed_plain(m->Object_0);
    } else if name == "relativeRotations"@ {
        lemma_typed("Quaternion"@);
        lemma_singles(
            redpackage_decoder::typed("Quaternion"@),
            p.bytes,
            at,
            redpackage_decoder::rotation_keys(),
            m->Object_0,
        );
        lemma_typed_plain(m->Object_0);
    } else if name == "placementInfos"@ {
        let e0 = redpackage_decoder::typed("worldCompiledEffectPlacementInfo"@);
        let flags = value::integer(p.bytes[at as int + 3] as int);
        let tag = value::integer(p.bytes[at as int] as int);
        let position = value::integer(p.bytes[at as int + 1] as int);
        let rotation = value::integer(p.bytes[at as int + 2] as int);
        let e1 = entries::put(e0, "flags"@, flags);
        let e2 = entries::put(e1, "placementTagIndex"@, tag);
        let e3 = entries::put(e2, "relativePositionIndex"@, position);
        lemma_typed("worldCompiledEffectPlacementInfo"@);
        lemma_typed_put(e0, "flags"@, flags);
        lemma_typed_put(e1, "placementTagIndex"@, tag);
        lemma_typed_put(e2, "relativePositionIndex"@, position);
        lemma_typed_put(e3, "relativeRotationIndex"@, rotation);
        lemma_typed_plain(m->Object_0);
    } else {
        let e0 = redpackage_decoder::typed("worldCompiledEffectEventInfo"@);
        let components = Model::Text(
            number_text::decimal(redpackage::number(p.bytes, at + 16, 8)->Ok_0),
        );
        let event = Model::Text(number_text::decimal(redpackage::number(p.bytes, at, 8)->Ok_0));
        let flags = value::integer(redpackage::byte_at(p.bytes, at + 24)->Ok_0 as int);
        let placements = Model::Text(
            number_text::decimal(redpackage::number(p.bytes, at + 8, 8)->Ok_0),
        );
        let e1 = entries::put(e0, "componentIndexMask"@, components);
        let e2 = entries::put(e1, "eventRUID"@, event);
        let e3 = entries::put(e2, "flags"@, flags);
        lemma_typed("worldCompiledEffectEventInfo"@);
        lemma_typed_put(e0, "componentIndexMask"@, components);
        lemma_typed_put(e1, "eventRUID"@, event);
        lemma_typed_put(e2, "flags"@, flags);
        lemma_typed_put(e3, "placementIndexMask"@, placements);
        lemma_typed_plain(m->Object_0);
    }
}

proof fn lemma_items_plain(
    p: Package,
    name: Seq<char>,
    at: nat,
    left: nat,
    found: Seq<Model>,
    items: Seq<Model>,
    e: nat,
)
    requires
        redpackage_decoder::effect_items(p, name, at, left, found) == Ok::<
            (Seq<Model>, nat),
            Fault,
        >((items, e)),
        forall|i: int| 0 <= i < found.len() ==> plain(#[trigger] found[i]),
    ensures
        items.len() == found.len() + left,
        items.subrange(0, found.len() as int) == found,
        forall|i: int| 0 <= i < items.len() ==> plain(#[trigger] items[i]),
    decreases left,
{
    if left == 0 {
        assert(items.subrange(0, found.len() as int) =~= found);
    } else {
        let (m, end) = redpackage_decoder::effect_item(p, name, at)->Ok_0;
        lemma_item_plain(p, name, at, m, end);
        let next = found.push(m);
        lemma_items_plain(p, name, end, (left - 1) as nat, next, items, e);
        assert(items.subrange(0, found.len() as int) =~= found) by {
            assert forall|i: int| 0 <= i < found.len() implies items[i] == found[i] by {
                assert(items.subrange(0, next.len() as int)[i] == next[i]);
            }
        }
    }
}

/// Writing an item of a table collects nothing.
proof fn lemma_item_state(
    sc: Scene,
    state: State,
    name: Seq<char>,
    at: nat,
    m: Model,
    e: nat,
    start: nat,
    written: Seq<u8>,
    after: State,
)
    requires
        kept(sc, state),
        redpackage_decoder::effect_item(sc.package, name, at) == Ok::<(Model, nat), Fault>((m, e)),
        redpackage_encoder::effect_item_bytes(state, name, m, start) == Ok::<
            (Seq<u8>, State),
            Fault,
        >((written, after)),
    ensures
        after == state,
{
    if name == "placementTags"@ || name == "componentNames"@ {
        let index = redpackage::number(sc.package.bytes, at, 2)->Ok_0;
        redpackage_kept_laws::lemma_stored(
            "CName"@,
            "string"@,
            sc.package.names[index as int],
        );
        redpackage_kept_laws::lemma_known_name(sc.package.names, index as int);
    }
}

/// The items of a table are written so that they are read back.
proof fn lemma_kept_items(
    sc: Scene,
    state: State,
    q: Package,
    name: Seq<char>,
    at: nat,
    items: Seq<Model>,
    i: nat,
    e: nat,
    start: nat,
    spot: nat,
    bytes: Seq<u8>,
    written: Seq<u8>,
    after: State,
)
    requires
        kept(sc, state),
        alike(sc.package, q),
        i <= items.len(),
        redpackage_decoder::effect_items(
            sc.package,
            name,
            at,
            (items.len() - i) as nat,
            items.subrange(0, i as int),
        ) == Ok::<(Seq<Model>, nat), Fault>((items, e)),
        forall|k: int| 0 <= k < items.len() ==> plain(#[trigger] items[k]),
        redpackage_encoder::effect_items_bytes(state, name, items, i, start, bytes) == Ok::<
            (Seq<u8>, State),
            Fault,
        >((written, after)),
        sequence::stands(q.bytes, spot, written),
    ensures
        after == state,
        bytes.len() <= written.len(),
        written.subrange(0, bytes.len() as int) == bytes,
        redpackage_decoder::effect_items(
            q,
            name,
            spot + bytes.len(),
            (items.len() - i) as nat,
            items.subrange(0, i as int),
        ) == Ok::<(Seq<Model>, nat), Fault>((items, spot + written.len())),
    decreases items.len() - i,
{
    if i == items.len() {
        assert(bytes.subrange(0, bytes.len() as int) =~= bytes);
    } else {
        let front = items.subrange(0, i as int);
        let (m, end) = redpackage_decoder::effect_item(sc.package, name, at)->Ok_0;
        let next = front.push(m);
        assert forall|k: int| 0 <= k < next.len() implies plain(#[trigger] next[k]) by {
            if k < i {
                assert(next[k] == items[k]);
            } else {
                lemma_item_plain(sc.package, name, at, m, end);
            }
        }
        lemma_items_plain(
            sc.package,
            name,
            end,
            (items.len() - i - 1) as nat,
            next,
            items,
            e,
        );
        assert(items.subrange(0, next.len() as int)[i as int] == m);
        assert(next =~= items.subrange(0, (i + 1) as int));
        let (more, done) = redpackage_encoder::effect_item_bytes(
            state,
            name,
            items[i as int],
            start,
        )->Ok_0;
        lemma_item_state(sc, state, name, at, m, end, start, more, done);
        lemma_kept_items(
            sc,
            done,
            q,
            name,
            end,
            items,
            i + 1,
            e,
            start,
            spot,
            bytes + more,
            written,
            after,
        );
        let both = bytes + more;
        assert(sequence::stands(written, 0, both));
        sequence::lemma_stands_split(written, 0, bytes, more);
        sequence::lemma_stands_within(q.bytes, spot, written, bytes.len(), more);
        lemma_kept_item(
            sc,
            state,
            q,
            name,
            at,
            m,
            end,
            start,
            spot + bytes.len(),
            more,
            done,
        );
    }
}

/// A table of a compiled effect is written so that it is read back.
pub proof fn lemma_kept_effect(
    sc: Scene,
    source: Source,
    state: State,
    q: Package,
    name: Seq<char>,
    start: nat,
    limit: nat,
    m: Model,
    e: nat,
    at: nat,
    lq: nat,
    written: Seq<u8>,
    behind: nat,
    after: State,
)
    requires
        kept(sc, state),
        source.package == sc.package,
        alike(sc.package, q),
        redpackage_decoder::effect_property(sc.package, name, start, limit) == Ok::<
            (Model, nat),
            Fault,
        >((m, e)),
        redpackage_encoder::written_effect(source, state, name, m, start) == Ok::<
            (Seq<u8>, nat, State),
            Fault,
        >((written, behind, after)),
        sequence::stands(q.bytes, at, written),
        at + written.len() <= lq,
    ensures
        after == state,
        behind == e,
        written.len() > 0,
        redpackage_decoder::effect_property(q, name, at, lq) == Ok::<(Model, nat), Fault>(
            (m, at + written.len()),
        ),
{
    let p = sc.package;
    let count = redpackage::number(p.bytes, start, 4)->Ok_0;
    let items = m->Array_0;
    let none = Seq::<Model>::empty();
    lemma_items_plain(p, name, start + 4, count, none, items, e);
    assert(items.subrange(0, 0) =~= none);
    let head = binary::le_bytes(items.len(), 4);
    binary::lemma_le_bytes_len(items.len(), 4);
    binary::lemma_byte_ranges();
    lemma_kept_items(
        sc,
        state,
        q,
        name,
        start + 4,
        items,
        0,
        e,
        start,
        at,
        head,
        written,
        after,
    );
    assert(sequence::stands(written, 0, head));
    sequence::lemma_stands_within(q.bytes, at, written, 0, head);
    binary::lemma_number_stands(q.bytes, at, items.len(), 4);
}

/// A table of a compiled effect holds no handles.
pub proof fn lemma_effect_plain(
    p: Package,
    name: Seq<char>,
    start: nat,
    limit: nat,
    m: Model,
    e: nat,
)
    requires
        redpackage_decoder::effect_property(p, name, start, limit) == Ok::<(Model, nat), Fault>(
            (m, e),
        ),
    ensures
        plain(m),
{
    let count = redpackage::number(p.bytes, start, 4)->Ok_0;
    lemma_items_plain(p, name, start + 4, count, Seq::empty(), m->Array_0, e);
}

} // verus!
