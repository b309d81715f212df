//! Packages whose values lie in order, and how their values are read at other
//! places.

use crate::binary;
use crate::entries;
use crate::red_types;
use crate::redpackage;
use crate::redpackage::Fault;
use crate::redpackage_decoder;
use crate::redpackage_leaf_laws;
use crate::redpackage_reader;
use crate::redpackage_reader::{Package, Reading, Shape};
use crate::text;
use crate::value;
use vstd::prelude::*;

verus! {

// ---------------------------------------------------------------------------
// Order
// ---------------------------------------------------------------------------

/// Whether a text holds a comma with a space behind it.
pub open spec fn has_comma(content: Seq<char>) -> bool {
    exists|i: int| 0 <= i < content.len() - 1 && #[trigger] content[i] == ',' && content[i + 1] == ' '
}

/// Whether names can be told apart in a list of them.
pub open spec fn listable(names: Seq<Seq<char>>) -> bool {
    forall|i: int|
        0 <= i < names.len() ==> (#[trigger] names[i]).len() > 0 && !has_comma(names[i])
}

/// The types of enumerations and bit fields.
pub open spec fn is_other(t: Seq<char>) -> bool {
    !redpackage_reader::named(t) && !red_types::is_handle(t) && !red_types::is_reference(t)
}

/// Whether the names of a bit field can be told apart in a list of them.
pub open spec fn leaf_in_order(p: Package, t: Seq<char>, start: nat, limit: nat) -> bool {
    is_other(t) && limit != start + 2 ==> match redpackage::byte_at(p.bytes, start) {
        Ok(count) => match redpackage_reader::flag_names(
            p,
            start + 1,
            count,
            start,
            Seq::empty(),
        ) {
            Ok(names) => listable(names),
            Err(_) => true,
        },
        Err(_) => true,
    }
}

/// Whether a property is stored as a table of a compiled effect.
pub open spec fn is_effect(p: Package, class: Seq<char>, name: Seq<char>) -> bool {
    class == "worldCompiledEffectInfo"@ && p.unknown1 == 2 && redpackage_decoder::effect_table(name)
}

/// Whether no two fields have the same name, and the table of the fields stands in
/// the class. Of two fields with one name a document shows the last alone, so that
/// a handle in the first would get a chunk of its own when it is written. A chunk
/// that a document does not show is kept as it is, up to its end.
pub open spec fn fields_in_order(
    p: Package,
    fields: Seq<(nat, nat, nat)>,
    start: nat,
    limit: nat,
) -> bool {
    &&& forall|i: int, j: int|
        0 <= i < j < fields.len() ==> p.names[(#[trigger] fields[i]).0 as int] != p.names[(
        #[trigger] fields[j]).0 as int]
    &&& fields.len() > 0 ==> start + 2 + 8 * fields.len() <= limit
}

/// Whether the value of a field is in order. A class that stands where the class it
/// is in does would be read in itself without end, unless it is a compiled effect.
pub open spec fn field_in_order(
    p: Package,
    class: Seq<char>,
    name: Seq<char>,
    t: Seq<char>,
    place: nat,
    end: nat,
    start: nat,
    limit: nat,
) -> bool
    decreases
        redpackage_reader::room(p.bytes, start),
        redpackage_reader::reach(redpackage_reader::class_rank(class), start, limit),
        0nat,
        0nat,
        0nat,
{
    proof {
        redpackage_reader::lemma_type_rank(p.classes, t);
    }
    let last = redpackage_reader::value_limit(t, place, end);
    if is_effect(p, class, name) {
        true
    } else if redpackage_reader::shape(p.classes, t) is Leaf {
        leaf_in_order(p, t, place, last)
    } else if !redpackage_reader::goes_on(p, class, t, place, last, start, limit) {
        true
    } else if redpackage_reader::nests(p.classes, t) && place == start
        && redpackage_reader::type_rank(p.classes, t) >= redpackage_reader::class_rank(class) {
        false
    } else {
        value_in_order(p, t, place, last)
    }
}

/// Whether the fields of a class from index `i` on are in order.
pub open spec fn record_in_order(
    p: Package,
    class: Seq<char>,
    fields: Seq<(nat, nat, nat)>,
    i: nat,
    start: nat,
    limit: nat,
) -> bool
    decreases
        redpackage_reader::room(p.bytes, start),
        redpackage_reader::reach(redpackage_reader::class_rank(class), start, limit),
        0nat,
        1nat,
        fields.len() - i,
{
    if i >= fields.len() {
        true
    } else {
        let place = fields[i as int].2;
        let end = redpackage_reader::field_limit(fields, i, limit);
        match (
            redpackage_reader::name_of(p, fields[i as int].0, place),
            redpackage_reader::name_of(p, fields[i as int].1, place),
        ) {
            (Ok(name), Ok(t)) => field_in_order(p, class, name, t, place, end, start, limit)
                && record_in_order(p, class, fields, i + 1, start, limit),
            _ => true,
        }
    }
}

/// Whether a class and all values in it are in order.
pub open spec fn class_in_order(p: Package, class: Seq<char>, start: nat, limit: nat) -> bool
    decreases
        redpackage_reader::room(p.bytes, start),
        redpackage_reader::reach(redpackage_reader::class_rank(class), start, limit),
        0nat,
        2nat,
        0nat,
{
    match redpackage_reader::fields_of(p.bytes, start) {
        Err(_) => true,
        Ok(fields) => fields_in_order(p, fields, start, limit) && record_in_order(
            p,
            class,
            fields,
            0,
            start,
            limit,
        ),
    }
}

/// Whether a value and all values in it are in order. A class that is named like a
/// type of a fixed size is read up to that size, however long it is written: it
/// has no fields.
pub open spec fn value_in_order(p: Package, t: Seq<char>, start: nat, limit: nat) -> bool
    decreases
        redpackage_reader::room(p.bytes, start),
        redpackage_reader::span(p.classes, t, start, limit),
        t.len(),
        3nat,
        0nat,
{
    proof {
        redpackage_reader::lemma_shape(p.classes, t);
        redpackage_reader::lemma_ranks(p.classes, t);
    }
    match redpackage_reader::shape(p.classes, t) {
        Shape::Array(inner) => match redpackage::number(p.bytes, start, 4) {
            Err(_) => true,
            Ok(count) => elements_in_order(p, inner, start + 4, count, limit),
        },
        Shape::Static(count, inner) => elements_in_order(p, inner, start, count, limit),
        Shape::Broken => true,
        Shape::Class => class_in_order(p, t, start, limit) && (red_types::type_size(t) is Some
            ==> redpackage::number(p.bytes, start, 2) == Ok::<nat, Fault>(0)),
        Shape::Leaf => leaf_in_order(p, t, start, limit),
    }
}

/// Whether the elements of an array are in order.
pub open spec fn elements_in_order(
    p: Package,
    inner: Seq<char>,
    cursor: nat,
    left: nat,
    limit: nat,
) -> bool
    decreases
        redpackage_reader::room(p.bytes, cursor),
        if left > 0 {
            redpackage_reader::span(
                p.classes,
                inner,
                cursor,
                redpackage_reader::value_limit(inner, cursor, limit),
            )
        } else {
            0
        },
        inner.len(),
        4nat,
        left,
{
    if left == 0 {
        true
    } else {
        proof {
            redpackage_reader::lemma_type_rank(p.classes, inner);
        }
        let last = redpackage_reader::value_limit(inner, cursor, limit);
        let reading = redpackage_decoder::value_at(p, inner, cursor, last);
        let item = if redpackage_reader::shape(p.classes, inner) is Leaf {
            leaf_in_order(p, inner, cursor, last)
        } else {
            value_in_order(p, inner, cursor, last)
        };
        item && match reading {
            Err(_) => true,
            Ok((_, end)) => if end <= cursor || end > limit || cursor >= p.bytes.len() {
                true
            } else {
                elements_in_order(p, inner, end, (left - 1) as nat, limit)
            },
        }
    }
}

// ---------------------------------------------------------------------------
// Other places
// ---------------------------------------------------------------------------

/// Two packages of which one holds a part of the other at another place.
pub ghost struct Move {
    pub p: Package,
    pub q: Package,
    pub a: nat,
    pub b: nat,
    pub hi: nat,
}

/// Whether two packages differ in nothing but their bytes.
pub open spec fn alike(p: Package, q: Package) -> bool {
    &&& q.names == p.names
    &&& q.imports == p.imports
    &&& q.classes == p.classes
    &&& q.version == p.version
    &&& q.unknown1 == p.unknown1
    &&& q.bytes.len() <= usize::MAX
}

/// Whether what stands from `a` up to `hi` in one package stands from `b` on in
/// the other.
pub open spec fn moves(v: Move) -> bool {
    &&& alike(v.p, v.q)
    &&& v.a <= v.hi <= v.p.bytes.len()
    &&& v.b + (v.hi - v.a) <= v.q.bytes.len()
    &&& forall|k: int| v.a <= k < v.hi ==> v.q.bytes[k - v.a + v.b] == #[trigger] v.p.bytes[k]
}

/// Whether a place is one before a limit in the other package.
pub open spec fn before(v: Move, k: nat, limit2: nat) -> bool {
    k + v.b <= limit2 + v.a
}

/// The place in the other package.
pub open spec fn to(v: Move, k: nat) -> nat {
    (k - v.a + v.b) as nat
}

proof fn lemma_part(v: Move, at: nat, count: nat)
    requires
        moves(v),
        v.a <= at,
        at + count <= v.hi,
    ensures
        v.q.bytes.subrange(to(v, at) as int, (to(v, at) + count) as int) == v.p.bytes.subrange(
            at as int,
            (at + count) as int,
        ),
{
    let x = v.q.bytes.subrange(to(v, at) as int, (to(v, at) + count) as int);
    let y = v.p.bytes.subrange(at as int, (at + count) as int);
    assert forall|i: int| 0 <= i < count implies x[i] == y[i] by {
        assert(v.q.bytes[(at + i) - v.a + v.b] == v.p.bytes[at + i]);
    }
    assert(x =~= y);
}

pub proof fn lemma_moved_number(v: Move, at: nat, count: nat)
    requires
        moves(v),
        v.a <= at,
        at + count <= v.hi,
    ensures
        redpackage::number(v.p.bytes, at, count) is Ok,
        redpackage::number(v.q.bytes, to(v, at), count) == redpackage::number(
            v.p.bytes,
            at,
            count,
        ),
{
    lemma_part(v, at, count);
}

pub proof fn lemma_moved_byte(v: Move, at: nat)
    requires
        moves(v),
        v.a <= at < v.hi,
    ensures
        redpackage::byte_at(v.q.bytes, to(v, at)) == redpackage::byte_at(v.p.bytes, at),
{
    assert(v.q.bytes[at - v.a + v.b] == v.p.bytes[at as int]);
}

/// The numbers of a type take as many bytes as its size.
pub proof fn lemma_number_size(t: Seq<char>)
    requires
        redpackage_reader::numeric(t),
    ensures
        red_types::type_size(t) == Some(redpackage_leaf_laws::width(t)),
{
    reveal_strlit("Float");
    reveal_strlit("Int64");
    reveal_strlit("Uint64");
    reveal_strlit("CRUID");
    reveal_strlit("CDateTime");
    assert("Float"@[0] == 'F');
    assert("Int64"@[0] == 'I');
    assert("Uint64"@[0] == 'U');
    assert("CRUID"@[0] == 'C');
    reveal_strlit("CName");
    reveal_strlit("Int32");
    reveal_strlit("Uint32");
    reveal_strlit("Double");
    assert("CDateTime"@[1] == 'D');
    assert("CRUID"@[1] == 'R');
    assert("CName"@[0] == 'C' && "CName"@[1] == 'N');
    assert("Int32"@[0] == 'I');
    assert("Uint32"@[0] == 'U');
    assert("Double"@[0] == 'D');
}

/// The types of arrays have no size.
pub proof fn lemma_array_size(classes: Seq<(Seq<char>, ())>, t: Seq<char>)
    ensures
        redpackage_reader::shape(classes, t) is Array || redpackage_reader::shape(
            classes,
            t,
        ) is Static ==> red_types::type_size(t) is None,
{
    reveal_strlit("array:");
    reveal_strlit("static:");
    reveal_strlit("handle:");
    reveal_strlit("whandle:");
    reveal_strlit("rRef:");
    reveal_strlit("raRef:");
    reveal_strlit("CGUID");
    reveal_strlit("gamedataLocKeyWrapper");
    let shape = redpackage_reader::shape(classes, t);
    if shape is Array || shape is Static {
        assert(t.len() >= 6);
        assert(t[0] == 'a' || t[0] == 's') by {
            if text::starts_with(t, "array:"@) {
                assert(t.subrange(0, 6)[0] == "array:"@[0]);
            } else {
                assert(t.subrange(0, 7)[0] == "static:"@[0]);
            }
        }
        if text::starts_with(t, "handle:"@) {
            assert(t.subrange(0, 7)[0] == "handle:"@[0]);
        }
        if text::starts_with(t, "whandle:"@) {
            assert(t.subrange(0, 8)[0] == "whandle:"@[0]);
        }
        if text::starts_with(t, "rRef:"@) {
            assert(t.subrange(0, 5)[0] == "rRef:"@[0]);
        }
        if text::starts_with(t, "raRef:"@) {
            assert(t.subrange(0, 6)[0] == "raRef:"@[0]);
        }
        assert("CGUID"@[0] == 'C');
        assert("gamedataLocKeyWrapper"@[0] == 'g');
    }
}

proof fn lemma_moved_text(v: Move, start: nat)
    requires
        moves(v),
        v.a <= start,
    ensures
        redpackage_reader::prefixed_text(v.p.bytes, start) matches Ok((content, e)) ==> start + 2
            <= e && (e <= v.hi ==> redpackage_reader::prefixed_text(v.q.bytes, to(v, start)) == Ok::<
            (Seq<char>, nat),
            Fault,
        >((content, to(v, e)))),
        redpackage_reader::signed_text(v.p.bytes, start) matches Ok((content, e)) ==> start + 2
            <= e && (e <= v.hi ==> redpackage_reader::signed_text(v.q.bytes, to(v, start)) == Ok::<
            (Seq<char>, nat),
            Fault,
        >((content, to(v, e)))),
{
    if start + 2 <= v.hi {
        lemma_moved_number(v, start, 2);
        let length = redpackage::number(v.p.bytes, start, 2)->Ok_0;
        binary::lemma_byte_ranges();
        binary::law_write_read(v.p.bytes.subrange(start as int, (start + 2) as int));
        if start + 2 + length <= v.hi {
            lemma_part(v, start + 2, length);
        }
    }
}

proof fn lemma_moved_flags(v: Move, at: nat, left: nat, offset: nat, offset2: nat, found: Seq<Seq<char>>)
    requires
        moves(v),
        v.a <= at,
        at + 2 * left <= v.hi,
    ensures
        redpackage_reader::flag_names(v.p, at, left, offset, found) matches Ok(names) ==>
            redpackage_reader::flag_names(v.q, to(v, at), left, offset2, found) == Ok::<
            Seq<Seq<char>>,
            Fault,
        >(names),
    decreases left,
{
    if left > 0 {
        lemma_moved_number(v, at, 2);
        let index = redpackage::number(v.p.bytes, at, 2)->Ok_0;
        if index < v.p.names.len() {
            lemma_moved_flags(
                v,
                at + 2,
                (left - 1) as nat,
                offset,
                offset2,
                found.push(v.p.names[index as int]),
            );
        }
    }
}

/// A value that holds no others is read at another place.
pub proof fn lemma_moved_leaf(
    v: Move,
    t: Seq<char>,
    start: nat,
    limit: nat,
    limit2: nat,
    m: value::Model,
    e: nat,
)
    requires
        moves(v),
        v.a <= start,
        redpackage_reader::leaf(v.p, t, start, limit) == Ok::<(value::Model, nat), Fault>((m, e)),
        e <= v.hi,
        match red_types::type_size(t) {
            Some(size) => limit == start + size && limit2 == to(v, limit),
            None => before(v, e, limit2) && limit2 <= to(v, limit) && e <= limit,
        },
    ensures
        e >= start,
        redpackage_reader::leaf(v.q, t, to(v, start), limit2) == Ok::<(value::Model, nat), Fault>(
            (m, to(v, e)),
        ),
{
    lemma_moved_text(v, start);
    if redpackage_reader::numeric(t) {
        lemma_number_size(t);
        if redpackage_leaf_laws::width(t) == 1 {
            lemma_moved_byte(v, start);
        } else {
            lemma_moved_number(v, start, redpackage_leaf_laws::width(t));
        }
    } else if t == "CName"@ {
        lemma_moved_number(v, start, 2);
    } else if t == "String"@ || t == "CString"@ || t == "NodeRef"@ {
    } else if t == "TweakDBID"@ {
        if v.p.version == 4 {
            lemma_moved_number(v, start, 8);
        }
    } else if t == "LocalizationString"@ {
        lemma_moved_text(v, start + 8);
        lemma_moved_number(v, start, 8);
    } else if t == "DataBuffer"@ {
        lemma_moved_number(v, start, 4);
        let length = redpackage::number(v.p.bytes, start, 4)->Ok_0;
        if length < 0x8000_0000 {
            lemma_part(v, start + 4, length);
        }
    } else if red_types::is_handle(t) {
        if v.p.version == 2 {
            lemma_moved_number(v, start, 2);
        } else {
            lemma_moved_number(v, start, 4);
        }
    } else if red_types::is_reference(t) {
        lemma_moved_number(v, start, 2);
    } else {
        if limit == start + 2 {
            lemma_moved_number(v, start, 2);
        } else {
            lemma_moved_byte(v, start);
            let count = redpackage::byte_at(v.p.bytes, start)->Ok_0;
            lemma_moved_flags(v, start + 1, count, start, to(v, start), Seq::empty());
        }
    }
}

proof fn lemma_moved_singles(
    v: Move,
    object: Seq<(Seq<char>, value::Model)>,
    at: nat,
    keys: Seq<Seq<char>>,
)
    requires
        moves(v),
        v.a <= at,
        at + 4 * keys.len() <= v.hi,
    ensures
        redpackage_decoder::singles(object, v.q.bytes, to(v, at), keys)
            == redpackage_decoder::singles(object, v.p.bytes, at, keys),
    decreases keys.len(),
{
    if keys.len() > 0 {
        lemma_moved_number(v, at, 4);
        let bits = redpackage::number(v.p.bytes, at, 4)->Ok_0;
        lemma_moved_singles(
            v,
            entries::put(object, keys[0], value::single(bits)),
            at + 4,
            keys.drop_first(),
        );
    }
}

pub proof fn lemma_moved_item(v: Move, name: Seq<char>, at: nat, m: value::Model, e: nat)
    requires
        moves(v),
        v.a <= at,
        redpackage_decoder::effect_item(v.p, name, at) == Ok::<(value::Model, nat), Fault>((m, e)),
        e <= v.hi,
    ensures
        e >= at,
        redpackage_decoder::effect_item(v.q, name, to(v, at)) == Ok::<(value::Model, nat), Fault>(
            (m, to(v, e)),
        ),
{
    if name == "placementTags"@ || name == "componentNames"@ {
        lemma_moved_number(v, at, 2);
    } else if name == "relativePositions"@ {
        lemma_moved_singles(
            v,
            redpackage_decoder::typed("Vector3"@),
            at,
            redpackage_decoder::position_keys(),
        );
    } else if name == "relativeRotations"@ {
        lemma_moved_singles(
            v,
            redpackage_decoder::typed("Quaternion"@),
            at,
            redpackage_decoder::rotation_keys(),
        );
    } else if name == "placementInfos"@ {
        lemma_moved_byte(v, at);
        lemma_moved_byte(v, at + 1);
        lemma_moved_byte(v, at + 2);
        lemma_moved_byte(v, at + 3);
    } else {
        lemma_moved_number(v, at, 8);
        lemma_moved_number(v, at + 8, 8);
        lemma_moved_number(v, at + 16, 8);
        lemma_moved_byte(v, at + 24);
    }
}

proof fn lemma_effect_end(
    p: Package,
    name: Seq<char>,
    at: nat,
    left: nat,
    found: Seq<value::Model>,
)
    ensures
        redpackage_decoder::effect_items(p, name, at, left, found) matches Ok((_, e)) ==> e >= at,
    decreases left,
{
    if left > 0 {
        match redpackage_decoder::effect_item(p, name, at) {
            Err(_) => {},
            Ok((item, end)) => {
                lemma_effect_end(p, name, end, (left - 1) as nat, found.push(item));
            },
        }
    }
}

proof fn lemma_moved_items(
    v: Move,
    name: Seq<char>,
    at: nat,
    left: nat,
    found: Seq<value::Model>,
    items: Seq<value::Model>,
    e: nat,
)
    requires
        moves(v),
        v.a <= at,
        redpackage_decoder::effect_items(v.p, name, at, left, found) == Ok::<
            (Seq<value::Model>, nat),
            Fault,
        >((items, e)),
        e <= v.hi,
    ensures
        e >= at,
        redpackage_decoder::effect_items(v.q, name, to(v, at), left, found) == Ok::<
            (Seq<value::Model>, nat),
            Fault,
        >((items, to(v, e))),
    decreases left,
{
    if left > 0 {
        let (item, end) = redpackage_decoder::effect_item(v.p, name, at)->Ok_0;
        lemma_effect_end(v.p, name, end, (left - 1) as nat, found.push(item));
        lemma_moved_item(v, name, at, item, end);
        lemma_moved_items(v, name, end, (left - 1) as nat, found.push(item), items, e);
    }
}

/// A table of a compiled effect is read at another place.
pub proof fn lemma_moved_effect(
    v: Move,
    name: Seq<char>,
    start: nat,
    limit: nat,
    limit2: nat,
    m: value::Model,
    e: nat,
)
    requires
        moves(v),
        v.a <= start,
        redpackage_decoder::effect_property(v.p, name, start, limit) == Ok::<
            (value::Model, nat),
            Fault,
        >((m, e)),
        e <= v.hi,
        before(v, e, limit2),
    ensures
        e >= start,
        redpackage_decoder::effect_property(v.q, name, to(v, start), limit2) == Ok::<
            (value::Model, nat),
            Fault,
        >((m, to(v, e))),
{
    let count = redpackage::number(v.p.bytes, start, 4)->Ok_0;
    let (items, end) = redpackage_decoder::effect_items(
        v.p,
        name,
        start + 4,
        count,
        Seq::empty(),
    )->Ok_0;
    lemma_effect_end(v.p, name, start + 4, count, Seq::empty());
    lemma_moved_number(v, start, 4);
    lemma_moved_items(v, name, start + 4, count, Seq::empty(), items, end);
}

/// Fields at other places.
pub open spec fn moved_fields(v: Move, fields: Seq<(nat, nat, nat)>) -> Seq<(nat, nat, nat)> {
    fields.map_values(|f: (nat, nat, nat)| (f.0, f.1, to(v, f.2)))
}

proof fn lemma_moved_fields(
    v: Move,
    start: nat,
    at: nat,
    left: nat,
    found: Seq<(nat, nat, nat)>,
    fields: Seq<(nat, nat, nat)>,
)
    requires
        moves(v),
        v.a <= start <= at,
        at + 8 * left <= v.hi,
        redpackage_reader::fields_from(v.p.bytes, start, at, left, found) == Ok::<
            Seq<(nat, nat, nat)>,
            Fault,
        >(fields),
        forall|i: int| found.len() <= i < fields.len() ==> (#[trigger] fields[i]).2 <= v.hi,
    ensures
        redpackage_reader::fields_from(
            v.q.bytes,
            to(v, start),
            to(v, at),
            left,
            moved_fields(v, found),
        ) == Ok::<Seq<(nat, nat, nat)>, Fault>(moved_fields(v, fields)),
        fields.len() == found.len() + left,
        fields.subrange(0, found.len() as int) == found,
    decreases left,
{
    if left > 0 {
        lemma_moved_number(v, at, 2);
        lemma_moved_number(v, at + 2, 2);
        lemma_moved_number(v, at + 4, 4);
        let name = redpackage::number(v.p.bytes, at, 2)->Ok_0;
        let kind = redpackage::number(v.p.bytes, at + 2, 2)->Ok_0;
        let relative = redpackage::number(v.p.bytes, at + 4, 4)->Ok_0;
        let next = found.push((name, kind, start + relative));
        assert(moved_fields(v, next) =~= moved_fields(v, found).push(
            (name, kind, to(v, start + relative)),
        ));
        lemma_fields_front(v.p.bytes, start, at + 8, (left - 1) as nat, next);
        assert(fields.subrange(0, next.len() as int)[found.len() as int]
            == fields[found.len() as int]);
        lemma_moved_fields(v, start, at + 8, (left - 1) as nat, next, fields);
        assert(fields.subrange(0, found.len() as int) =~= found) by {
            assert forall|i: int| 0 <= i < found.len() implies fields[i] == found[i] by {
                assert(fields.subrange(0, next.len() as int)[i] == next[i]);
            }
        }
    } else {
        assert(fields.subrange(0, found.len() as int) =~= found);
    }
}

/// The fields that were found stay in front.
pub proof fn lemma_fields_front(
    bytes: Seq<u8>,
    start: nat,
    at: nat,
    left: nat,
    found: Seq<(nat, nat, nat)>,
)
    ensures
        redpackage_reader::fields_from(bytes, start, at, left, found) matches Ok(fields)
            ==> fields.len() == found.len() + left && fields.subrange(0, found.len() as int)
            == found && (left > 0 ==> fields[found.len() as int].2 >= start),
    decreases left,
{
    if left == 0 {
        assert(found.subrange(0, found.len() as int) =~= found);
    } else {
        match (
            redpackage::number(bytes, at, 2),
            redpackage::number(bytes, at + 2, 2),
            redpackage::number(bytes, at + 4, 4),
        ) {
            (Ok(name), Ok(kind), Ok(relative)) => {
                match redpackage::moved(start, relative) {
                    Ok(place) => {
                        let next = found.push((name, kind, place));
                        lemma_fields_front(bytes, start, at + 8, (left - 1) as nat, next);
                        match redpackage_reader::fields_from(
                            bytes,
                            start,
                            at + 8,
                            (left - 1) as nat,
                            next,
                        ) {
                            Ok(fields) => {
                                assert forall|i: int| 0 <= i < found.len() implies fields[i]
                                    == found[i] by {
                                    assert(fields.subrange(0, next.len() as int)[i] == next[i]);
                                }
                                assert(fields.subrange(0, found.len() as int) =~= found);
                                assert(fields.subrange(0, next.len() as int)[found.len() as int]
                                    == next[found.len() as int]);
                            },
                            Err(_) => {},
                        }
                    },
                    Err(_) => {},
                }
            },
            _ => {},
        }
    }
}

/// The values of fields that were read follow one another.
pub proof fn lemma_record_places(
    p: Package,
    class: Seq<char>,
    fields: Seq<(nat, nat, nat)>,
    i: nat,
    start: nat,
    limit: nat,
    object: Seq<(Seq<char>, value::Model)>,
    consumed: nat,
)
    ensures
        redpackage_decoder::record(p, class, fields, i, start, limit, object, consumed) matches Ok(
            (_, e),
        ) ==> (i < fields.len() ==> e <= limit) && forall|k: int|
            i <= k < fields.len() ==> fields[i as int].2 <= (#[trigger] fields[k]).2 <= limit
                && fields[k].0 < p.names.len() && fields[k].1 < p.names.len(),
    decreases fields.len() - i,
{
    if i < fields.len() {
        let place = fields[i as int].2;
        let end = redpackage_reader::field_limit(fields, i, limit);
        match (
            redpackage_reader::name_of(p, fields[i as int].0, place),
            redpackage_reader::name_of(p, fields[i as int].1, place),
        ) {
            (Ok(name), Ok(t)) => {
                match redpackage_decoder::field_value(p, class, name, t, place, end, start, limit) {
                    Ok((inner, behind)) => {
                        lemma_record_places(
                            p,
                            class,
                            fields,
                            i + 1,
                            start,
                            limit,
                            entries::put(object, name, inner),
                            behind,
                        );
                    },
                    Err(_) => {},
                }
            },
            _ => {},
        }
    }
}

/// The value of a field.
#[verifier::opaque]
pub open spec fn field_read(
    p: Package,
    class: Seq<char>,
    name: Seq<char>,
    t: Seq<char>,
    place: nat,
    end: nat,
    start: nat,
    limit: nat,
) -> Reading {
    redpackage_decoder::field_value(p, class, name, t, place, end, start, limit)
}

/// Whether the value of a field is in order.
#[verifier::opaque]
pub open spec fn field_ordered(
    p: Package,
    class: Seq<char>,
    name: Seq<char>,
    t: Seq<char>,
    place: nat,
    end: nat,
    start: nat,
    limit: nat,
) -> bool {
    field_in_order(p, class, name, t, place, end, start, limit)
}

/// The fields of a class are read one after the other.
pub proof fn lemma_record_step(
    p: Package,
    class: Seq<char>,
    fields: Seq<(nat, nat, nat)>,
    i: nat,
    start: nat,
    limit: nat,
    object: Seq<(Seq<char>, value::Model)>,
    consumed: nat,
)
    requires
        i < fields.len(),
        fields[i as int].0 < p.names.len(),
        fields[i as int].1 < p.names.len(),
    ensures
        ({
            let place = fields[i as int].2;
            let end = redpackage_reader::field_limit(fields, i, limit);
            let name = p.names[fields[i as int].0 as int];
            let t = p.names[fields[i as int].1 as int];
            &&& redpackage_decoder::record(p, class, fields, i, start, limit, object, consumed)
                == if place > end || end > limit {
                redpackage::fault(place, "field bounds"@)
            } else {
                match field_read(p, class, name, t, place, end, start, limit) {
                    Err(f) => Err(redpackage_decoder::field_fault(class, name, t, place, end, f)),
                    Ok((m, behind)) => if behind > end {
                        redpackage::fault(behind, "field overrun"@)
                    } else {
                        redpackage_decoder::record(
                            p,
                            class,
                            fields,
                            i + 1,
                            start,
                            limit,
                            entries::put(object, name, m),
                            behind,
                        )
                    },
                }
            }
            &&& record_in_order(p, class, fields, i, start, limit) ==> field_ordered(
                p,
                class,
                name,
                t,
                place,
                end,
                start,
                limit,
            ) && record_in_order(p, class, fields, i + 1, start, limit)
        }),
{
    reveal(field_read);
    reveal(field_ordered);
}

/// A type that starts with a compiled effect has no fixed size, and neither have
/// the types in it.
proof fn lemma_effect_limit(
    classes: Seq<(Seq<char>, ())>,
    t: Seq<char>,
    start: nat,
    limit: nat,
)
    requires
        redpackage_reader::type_rank(classes, t) == 2,
    ensures
        red_types::type_size(t) is None,
        redpackage_reader::class_limit(classes, t, start, limit) == limit,
    decreases t.len(),
{
    redpackage_reader::lemma_shape(classes, t);
    lemma_array_size(classes, t);
    match redpackage_reader::shape(classes, t) {
        Shape::Static(_, inner) => {
            lemma_effect_limit(classes, inner, start, limit);
        },
        _ => {
            lemma_effect_size();
        },
    }
}

proof fn lemma_effect_size()
    ensures
        red_types::type_size("worldCompiledEffectInfo"@) is None,
{
    reveal_strlit("worldCompiledEffectInfo");
    reveal_strlit("Bool");
    reveal_strlit("Int8");
    reveal_strlit("Uint8");
    reveal_strlit("Int16");
    reveal_strlit("Uint16");
    reveal_strlit("CName");
    reveal_strlit("Int32");
    reveal_strlit("Uint32");
    reveal_strlit("Float");
    reveal_strlit("Int64");
    reveal_strlit("Uint64");
    reveal_strlit("Double");
    reveal_strlit("CRUID");
    reveal_strlit("CDateTime");
    reveal_strlit("TweakDBID");
    reveal_strlit("gamedataLocKeyWrapper");
    reveal_strlit("CGUID");
    reveal_strlit("handle:");
    reveal_strlit("whandle:");
    reveal_strlit("rRef:");
    reveal_strlit("raRef:");
    let t = "worldCompiledEffectInfo"@;
    assert(t.len() == 23);
    assert(!text::starts_with(t, "handle:"@)) by {
        assert(t.subrange(0, 7)[0] != "handle:"@[0]);
    }
    assert(!text::starts_with(t, "whandle:"@)) by {
        assert(t.subrange(0, 8)[1] != "whandle:"@[1]);
    }
    assert(!text::starts_with(t, "rRef:"@)) by {
        assert(t.subrange(0, 5)[0] != "rRef:"@[0]);
    }
    assert(!text::starts_with(t, "raRef:"@)) by {
        assert(t.subrange(0, 6)[0] != "raRef:"@[0]);
    }
}

/// The limits of a value at two places.
pub proof fn lemma_limits(v: Move, t: Seq<char>, place: nat, end: nat, end2: nat)
    requires
        v.a <= place,
    ensures
        ({
            let last = redpackage_reader::value_limit(t, place, end);
            let last2 = redpackage_reader::value_limit(t, to(v, place), end2);
            match red_types::type_size(t) {
                Some(size) => last == place + size && last2 == to(v, last),
                None => last == end && last2 == end2,
            }
        }),
{
}

/// A class without fields is read alike up to any limit.
pub proof fn lemma_empty_class(p: Package, class: Seq<char>, start: nat, limit: nat)
    requires
        redpackage::number(p.bytes, start, 2) == Ok::<nat, Fault>(0),
    ensures
        redpackage_decoder::class_at(p, class, start, limit) == Ok::<(value::Model, nat), Fault>(
            (value::Model::Object(redpackage_decoder::typed(class)), start + 2),
        ),
        class_in_order(p, class, start, limit),
{
    let none = Seq::<(nat, nat, nat)>::empty();
    assert(redpackage_reader::fields_of(p.bytes, start) == Ok::<Seq<(nat, nat, nat)>, Fault>(none));
}

/// A value of a fixed size that is no plain one is a class without fields.
pub proof fn lemma_sized(p: Package, t: Seq<char>, start: nat, last: nat)
    requires
        red_types::type_size(t) is Some,
        !(redpackage_reader::shape(p.classes, t) is Leaf),
        redpackage_decoder::value_at(p, t, start, last) is Ok,
        value_in_order(p, t, start, last),
    ensures
        redpackage_reader::shape(p.classes, t) is Class,
        redpackage::number(p.bytes, start, 2) == Ok::<nat, Fault>(0),
{
    lemma_array_size(p.classes, t);
}

/// A class of a fixed size, which has no fields, is read at another place.
pub proof fn lemma_moved_sized(
    v: Move,
    t: Seq<char>,
    start: nat,
    last: nat,
    last2: nat,
    m: value::Model,
    e: nat,
)
    requires
        moves(v),
        v.a <= start,
        red_types::type_size(t) is Some,
        !(redpackage_reader::shape(v.p.classes, t) is Leaf),
        redpackage_decoder::value_at(v.p, t, start, last) == Ok::<(value::Model, nat), Fault>(
            (m, e),
        ),
        value_in_order(v.p, t, start, last),
        e <= v.hi,
    ensures
        e == start + 2,
        redpackage_decoder::value_at(v.q, t, to(v, start), last2) == Ok::<
            (value::Model, nat),
            Fault,
        >((m, to(v, e))),
{
    lemma_sized(v.p, t, start, last);
    lemma_empty_class(v.p, t, start, last);
    lemma_moved_number(v, start, 2);
    lemma_empty_class(v.q, t, to(v, start), last2);
    assert(redpackage_decoder::value_at(v.p, t, start, last) == redpackage_decoder::class_at(
        v.p,
        t,
        start,
        last,
    ));
    assert(redpackage_decoder::value_at(v.q, t, to(v, start), last2)
        == redpackage_decoder::class_at(v.q, t, to(v, start), last2));
}

/// A field of a class is read at another place.
proof fn lemma_moved_field(
    v: Move,
    class: Seq<char>,
    name: Seq<char>,
    t: Seq<char>,
    place: nat,
    end: nat,
    end2: nat,
    start: nat,
    limit: nat,
    limit2: nat,
    m: value::Model,
    e: nat,
)
    requires
        moves(v),
        v.a <= start <= place,
        end <= limit <= v.hi,
        field_read(v.p, class, name, t, place, end, start, limit) == Ok::<
            (value::Model, nat),
            Fault,
        >((m, e)),
        field_ordered(v.p, class, name, t, place, end, start, limit),
        e <= end,
        before(v, e, end2),
        end2 <= to(v, end),
        end2 <= limit2 <= to(v, limit),
    ensures
        e >= place,
        field_read(
            v.q,
            class,
            name,
            t,
            to(v, place),
            end2,
            to(v, start),
            limit2,
        ) == Ok::<(value::Model, nat), Fault>((m, to(v, e))),
    decreases
        redpackage_reader::room(v.p.bytes, start),
        redpackage_reader::reach(redpackage_reader::class_rank(class), start, limit),
        0nat,
        0nat,
        0nat,
{
    reveal(field_read);
    reveal(field_ordered);
    redpackage_reader::lemma_type_rank(v.p.classes, t);
    lemma_limits(v, t, place, end, end2);
    let last = redpackage_reader::value_limit(t, place, end);
    let last2 = redpackage_reader::value_limit(t, to(v, place), end2);
    if is_effect(v.p, class, name) {
        lemma_moved_effect(v, name, place, end, end2, m, e);
    } else if redpackage_reader::shape(v.p.classes, t) is Leaf {
        lemma_moved_leaf(v, t, place, last, last2, m, e);
    } else {
        if redpackage_reader::nests(v.p.classes, t) && place == start {
            lemma_effect_limit(v.p.classes, t, place, last);
            lemma_effect_limit(v.p.classes, t, to(v, place), last2);
        }
        if red_types::type_size(t) is Some {
            lemma_moved_sized(v, t, place, last, last2, m, e);
        } else {
            lemma_moved_value(v, t, place, last, last2, m, e);
        }
    }
}

/// The fields of a class are read at another place.
proof fn lemma_moved_record(
    v: Move,
    class: Seq<char>,
    fields: Seq<(nat, nat, nat)>,
    i: nat,
    start: nat,
    limit: nat,
    limit2: nat,
    object: Seq<(Seq<char>, value::Model)>,
    consumed: nat,
    m: value::Model,
    e: nat,
)
    requires
        moves(v),
        v.a <= start,
        limit <= v.hi,
        i <= fields.len(),
        i < fields.len() ==> fields[i as int].2 >= start,
        redpackage_decoder::record(v.p, class, fields, i, start, limit, object, consumed) == Ok::<
            (value::Model, nat),
            Fault,
        >((m, e)),
        record_in_order(v.p, class, fields, i, start, limit),
        e <= limit,
        before(v, e, limit2),
        limit2 <= to(v, limit),
    ensures
        i < fields.len() ==> e >= fields[i as int].2,
        i == fields.len() ==> e == consumed,
        redpackage_decoder::record(
            v.q,
            class,
            moved_fields(v, fields),
            i,
            to(v, start),
            limit2,
            object,
            to(v, consumed),
        ) == Ok::<(value::Model, nat), Fault>((m, to(v, e))),
    decreases
        redpackage_reader::room(v.p.bytes, start),
        redpackage_reader::reach(redpackage_reader::class_rank(class), start, limit),
        0nat,
        1nat,
        fields.len() - i,
{
    if i < fields.len() {
        let place = fields[i as int].2;
        let end = redpackage_reader::field_limit(fields, i, limit);
        let name = redpackage_reader::name_of(v.p, fields[i as int].0, place)->Ok_0;
        let t = redpackage_reader::name_of(v.p, fields[i as int].1, place)->Ok_0;
        lemma_record_step(v.p, class, fields, i, start, limit, object, consumed);
        let (inner, behind) = field_read(
            v.p,
            class,
            name,
            t,
            place,
            end,
            start,
            limit,
        )->Ok_0;
        let next = entries::put(object, name, inner);
        lemma_moved_record(
            v,
            class,
            fields,
            i + 1,
            start,
            limit,
            limit2,
            next,
            behind,
            m,
            e,
        );
        let fields2 = moved_fields(v, fields);
        let end2 = redpackage_reader::field_limit(fields2, i, limit2);
        lemma_record_step(
            v.q,
            class,
            fields2,
            i,
            to(v, start),
            limit2,
            object,
            to(v, consumed),
        );
        assert(end2 <= limit2);
        assert(before(v, behind, end2) && end2 <= to(v, end));
        lemma_moved_field(
            v,
            class,
            name,
            t,
            place,
            end,
            end2,
            start,
            limit,
            limit2,
            inner,
            behind,
        );
    }
}

/// A class is read at another place, and up to another limit.
#[verifier::rlimit(40)]
pub proof fn lemma_moved_class(
    v: Move,
    class: Seq<char>,
    start: nat,
    limit: nat,
    limit2: nat,
    m: value::Model,
    e: nat,
)
    requires
        moves(v),
        v.a <= start,
        limit <= v.hi,
        redpackage_decoder::class_at(v.p, class, start, limit) == Ok::<(value::Model, nat), Fault>(
            (m, e),
        ),
        class_in_order(v.p, class, start, limit),
        e <= limit,
        before(v, e, limit2),
        limit2 <= to(v, limit),
    ensures
        e >= start,
        redpackage_decoder::class_at(v.q, class, to(v, start), limit2) == Ok::<
            (value::Model, nat),
            Fault,
        >((m, to(v, e))),
    decreases
        redpackage_reader::room(v.p.bytes, start),
        redpackage_reader::reach(redpackage_reader::class_rank(class), start, limit),
        0nat,
        2nat,
        0nat,
{
    let fields = redpackage_reader::fields_of(v.p.bytes, start)->Ok_0;
    let count = redpackage::number(v.p.bytes, start, 2)->Ok_0;
    lemma_fields_front(v.p.bytes, start, start + 2, count, Seq::empty());
    lemma_record_places(v.p, class, fields, 0, start, limit, redpackage_decoder::typed(class), start + 2 + 8 * count);
    lemma_moved_record(
        v,
        class,
        fields,
        0,
        start,
        limit,
        limit2,
        redpackage_decoder::typed(class),
        start + 2 + fields.len() * 8,
        m,
        e,
    );
    lemma_moved_number(v, start, 2);
    lemma_moved_fields(v, start, start + 2, count, Seq::empty(), fields);
    assert(moved_fields(v, Seq::empty()) =~= Seq::<(nat, nat, nat)>::empty());
}

/// A value that holds others is read at another place, and up to another limit.
pub proof fn lemma_moved_value(
    v: Move,
    t: Seq<char>,
    start: nat,
    limit: nat,
    limit2: nat,
    m: value::Model,
    e: nat,
)
    requires
        moves(v),
        v.a <= start,
        limit <= v.hi,
        !(redpackage_reader::shape(v.p.classes, t) is Leaf),
        redpackage_decoder::value_at(v.p, t, start, limit) == Ok::<(value::Model, nat), Fault>(
            (m, e),
        ),
        value_in_order(v.p, t, start, limit),
        e <= limit,
        before(v, e, limit2),
        limit2 <= to(v, limit),
    ensures
        e >= start,
        redpackage_decoder::value_at(v.q, t, to(v, start), limit2) == Ok::<
            (value::Model, nat),
            Fault,
        >((m, to(v, e))),
    decreases
        redpackage_reader::room(v.p.bytes, start),
        redpackage_reader::span(v.p.classes, t, start, limit),
        t.len(),
        3nat,
        0nat,
{
    redpackage_reader::lemma_shape(v.p.classes, t);
    redpackage_reader::lemma_ranks(v.p.classes, t);
    match redpackage_reader::shape(v.p.classes, t) {
        Shape::Array(inner) => {
            let count = redpackage::number(v.p.bytes, start, 4)->Ok_0;
            lemma_elements_end(v.p, inner, start + 4, count, limit, Seq::empty());
            lemma_moved_number(v, start, 4);
            lemma_moved_elements(
                v,
                inner,
                start + 4,
                count,
                limit,
                limit2,
                Seq::empty(),
                m,
                e,
            );
        },
        Shape::Static(count, inner) => {
            lemma_moved_elements(v, inner, start, count, limit, limit2, Seq::empty(), m, e);
        },
        Shape::Broken => {},
        Shape::Class => {
            lemma_moved_class(v, t, start, limit, limit2, m, e);
        },
        Shape::Leaf => {},
    }
}

/// Elements end behind where they start.
pub proof fn lemma_elements_end(
    p: Package,
    inner: Seq<char>,
    cursor: nat,
    left: nat,
    limit: nat,
    found: Seq<value::Model>,
)
    ensures
        redpackage_decoder::elements(p, inner, cursor, left, limit, found) matches Ok((_, e))
            ==> e >= cursor,
    decreases left,
{
    if left > 0 {
        let last = redpackage_reader::value_limit(inner, cursor, limit);
        match redpackage_decoder::value_at(p, inner, cursor, last) {
            Ok((m, end)) => {
                lemma_elements_end(p, inner, end, (left - 1) as nat, limit, found.push(m));
            },
            Err(_) => {},
        }
    }
}

/// The elements of an array are read at another place, and up to another limit.
pub proof fn lemma_moved_elements(
    v: Move,
    inner: Seq<char>,
    cursor: nat,
    left: nat,
    limit: nat,
    limit2: nat,
    found: Seq<value::Model>,
    m: value::Model,
    e: nat,
)
    requires
        moves(v),
        v.a <= cursor,
        limit <= v.hi,
        redpackage_decoder::elements(v.p, inner, cursor, left, limit, found) == Ok::<
            (value::Model, nat),
            Fault,
        >((m, e)),
        elements_in_order(v.p, inner, cursor, left, limit),
        e <= limit,
        before(v, e, limit2),
        limit2 <= to(v, limit),
    ensures
        e >= cursor,
        redpackage_decoder::elements(v.q, inner, to(v, cursor), left, limit2, found) == Ok::<
            (value::Model, nat),
            Fault,
        >((m, to(v, e))),
    decreases
        redpackage_reader::room(v.p.bytes, cursor),
        if left > 0 {
            redpackage_reader::span(
                v.p.classes,
                inner,
                cursor,
                redpackage_reader::value_limit(inner, cursor, limit),
            )
        } else {
            0
        },
        inner.len(),
        4nat,
        left,
{
    if left > 0 {
        let last = redpackage_reader::value_limit(inner, cursor, limit);
        let last2 = redpackage_reader::value_limit(inner, to(v, cursor), limit2);
        lemma_array_size(v.p.classes, inner);
        redpackage_reader::lemma_type_rank(v.p.classes, inner);
        let (item, end) = redpackage_decoder::value_at(v.p, inner, cursor, last)->Ok_0;
        lemma_elements_end(v.p, inner, end, (left - 1) as nat, limit, found.push(item));
        if redpackage_reader::shape(v.p.classes, inner) is Leaf {
            lemma_moved_leaf(v, inner, cursor, last, last2, item, end);
        } else if red_types::type_size(inner) is Some {
            lemma_moved_sized(v, inner, cursor, last, last2, item, end);
        } else {
            lemma_moved_value(v, inner, cursor, last, last2, item, end);
        }
        lemma_moved_elements(
            v,
            inner,
            end,
            (left - 1) as nat,
            limit,
            limit2,
            found.push(item),
            m,
            e,
        );
    }
}

} // verus!
