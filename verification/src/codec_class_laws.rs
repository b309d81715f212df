//! What the classes and the arrays of a resource are.

use crate::codec;
use crate::codec_appendix;
use crate::codec_leaf_laws;
use crate::codec_leaf_laws::{four, two};
use crate::codec_reader;
use crate::codec_reader::{Fault, Reading, Resource};
use crate::entries;
use crate::object_laws;
use crate::object_laws::{has_fields, said};
use crate::red_types;
use crate::value;
use vstd::prelude::*;

verus! {

// ---------------------------------------------------------------------------
// Classes
// ---------------------------------------------------------------------------

/// A property: the indexes of its name and of its type, where its content starts and how
/// large it is, and its value.
pub ghost struct Property {
    pub name: nat,
    pub red_type: nat,
    pub at: nat,
    pub size: nat,
    pub value: value::Model,
}

/// The name of a property.
pub open spec fn name_of(r: Resource, p: Property) -> Seq<char> {
    r.file.names[p.name as int].value
}

/// The type of a property.
pub open spec fn type_of(r: Resource, p: Property) -> Seq<char> {
    r.file.names[p.red_type as int].value
}

/// Whether a property stands in a resource: eight bytes before its content give its name,
/// its type and its size, to which those of the size belong, and its content is that of
/// its value.
#[verifier::opaque]
pub open spec fn stands(r: Resource, class: Seq<char>, end: nat, p: Property) -> bool {
    &&& p.at >= 8
    &&& p.at + p.size <= end <= r.bytes.len()
    &&& 0 < p.name < r.file.names.len()
    &&& p.red_type < r.file.names.len()
    &&& two(r.bytes, (p.at - 8) as nat) == p.name
    &&& two(r.bytes, (p.at - 6) as nat) == p.red_type
    &&& four(r.bytes, (p.at - 4) as nat) == p.size + 4
    &&& !codec::is_package(class, name_of(r, p), type_of(r, p))
    &&& codec::value_at(r, type_of(r, p), p.at, p.size) == Ok::<(value::Model, nat), Fault>(
        (p.value, p.at + p.size),
    )
}

/// Whether properties stand behind each other.
pub open spec fn in_row(list: Seq<Property>, start: nat, last: nat) -> bool {
    &&& list.len() == 0 ==> last == start
    &&& list.len() > 0 ==> list[0].at == start + 8 && last == list.last().at + list.last().size
    &&& forall|i: int|
        0 <= i < list.len() - 1 ==> list[i + 1].at == (#[trigger] list[i]).at + list[i].size + 8
}

/// A property puts its value under its name.
pub proof fn law_property_read(
    r: Resource,
    class: Seq<char>,
    end: nat,
    p: Property,
    object: Seq<(Seq<char>, value::Model)>,
)
    requires
        stands(r, class, end, p),
    ensures
        codec::properties(r, class, (p.at - 8) as nat, end, object) == codec::properties(
            r,
            class,
            p.at + p.size,
            end,
            entries::put(object, name_of(r, p), p.value),
        ),
{
    reveal(stands);
    codec_leaf_laws::lemma_numbers(r.bytes, (p.at - 8) as nat);
    codec_leaf_laws::lemma_numbers(r.bytes, (p.at - 6) as nat);
    codec_leaf_laws::lemma_numbers(r.bytes, (p.at - 4) as nat);
}

/// The fields of a class: its name and its properties.
pub open spec fn class_fields(
    r: Resource,
    class: Seq<char>,
    list: Seq<Property>,
) -> Seq<(Seq<char>, value::Model)> {
    seq![("$type"@, said(class))] + Seq::new(
        list.len(),
        |i: int| (name_of(r, list[i]), list[i].value),
    )
}

/// Whether the names of some properties are apart, and none is that of the class name.
pub open spec fn names_apart(r: Resource, list: Seq<Property>) -> bool {
    &&& forall|i: int| 0 <= i < list.len() ==> name_of(r, #[trigger] list[i]) != "$type"@
    &&& forall|i: int, j: int|
        0 <= i < j < list.len() ==> name_of(r, #[trigger] list[i]) != name_of(
            r,
            #[trigger] list[j],
        )
}

#[verifier::opaque]
spec fn several(
    r: Resource,
    class: Seq<char>,
    cursor: nat,
    end: nat,
    object: Seq<(Seq<char>, value::Model)>,
) -> codec_appendix::Extended {
    codec::properties(r, class, cursor, end, object)
}

proof fn lemma_step(
    r: Resource,
    class: Seq<char>,
    end: nat,
    p: Property,
    object: Seq<(Seq<char>, value::Model)>,
)
    requires
        stands(r, class, end, p),
    ensures
        p.at >= 8,
        several(r, class, (p.at - 8) as nat, end, object) == several(
            r,
            class,
            p.at + p.size,
            end,
            entries::put(object, name_of(r, p), p.value),
        ),
{
    law_property_read(r, class, end, p, object);
    reveal(several);
    assert(p.at >= 8) by {
        reveal(stands);
    }
}

proof fn lemma_end(
    r: Resource,
    class: Seq<char>,
    last: nat,
    end: nat,
    object: Seq<(Seq<char>, value::Model)>,
)
    requires
        last + 2 <= r.bytes.len(),
        two(r.bytes, last) == 0,
    ensures
        several(r, class, last, end, object) == Ok::<
            (Seq<(Seq<char>, value::Model)>, nat),
            Fault,
        >((object, last + 2)),
{
    reveal(several);
    codec_leaf_laws::lemma_numbers(r.bytes, last);
}

proof fn lemma_properties(
    r: Resource,
    class: Seq<char>,
    start: nat,
    end: nat,
    last: nat,
    list: Seq<Property>,
    k: nat,
    object: Seq<(Seq<char>, value::Model)>,
)
    requires
        k <= list.len(),
        in_row(list, start, last),
        last + 2 <= end <= r.bytes.len(),
        two(r.bytes, last) == 0,
        forall|i: int| 0 <= i < list.len() ==> stands(r, class, end, #[trigger] list[i]),
        names_apart(r, list),
        object_laws::lists(object, class_fields(r, class, list.subrange(0, k as int))),
    ensures
        ({
            let at = if k < list.len() {
                list[k as int].at - 8
            } else {
                last as int
            };
            several(r, class, at as nat, end, object) matches Ok((fields, behind))
                && behind == last + 2 && object_laws::lists(fields, class_fields(r, class, list))
        }),
    decreases list.len() - k,
{
    if k == list.len() {
        assert(list.subrange(0, k as int) =~= list);
        lemma_end(r, class, last, end, object);
    } else {
        let p = list[k as int];
        let front = list.subrange(0, k as int);
        let more = list.subrange(0, k as int + 1);
        let before = class_fields(r, class, front);
        lemma_step(r, class, end, p, object);
        assert forall|i: int| 0 <= i < before.len() implies (#[trigger] before[i]).0 != name_of(
            r,
            p,
        ) by {
            if i > 0 {
                assert(name_of(r, list[i - 1]) != name_of(r, list[k as int]));
            }
        }
        object_laws::lemma_with(object, before, name_of(r, p), p.value);
        assert(before.push((name_of(r, p), p.value)) =~= class_fields(r, class, more));
        if k + 1 < list.len() {
            assert(list[k as int + 1].at == list[k as int].at + list[k as int].size + 8);
        }
        lemma_properties(
            r,
            class,
            start,
            end,
            last,
            list,
            k + 1,
            entries::put(object, name_of(r, p), p.value),
        );
    }
}

/// Whether a class is stored as its properties and nothing else.
pub open spec fn is_plain(class: Seq<char>) -> bool {
    &&& class != "AreaShapeOutline"@
    &&& class != "CMaterialInstance"@
    &&& class != "worldStreamingSector"@
    &&& class != "gameDeviceResourceData"@
    &&& class != "worldStreamingWorld"@
    &&& !red_types::opaque_data(class)
    &&& !red_types::opaque_tail(class)
}

/// A class is read as its name and the value of each of its properties under the name of
/// that property.
pub proof fn law_class_read(
    r: Resource,
    class: Seq<char>,
    start: nat,
    size: nat,
    last: nat,
    list: Seq<Property>,
)
    requires
        is_plain(class),
        start + size <= r.bytes.len(),
        last + 2 <= start + size,
        r.bytes[start as int] == 0,
        in_row(list, start + 1, last),
        two(r.bytes, last) == 0,
        forall|i: int|
            0 <= i < list.len() ==> stands(r, class, start + size, #[trigger] list[i]),
        names_apart(r, list),
    ensures
        codec::class_at(r, class, start, size) matches Ok((m, end)) && end == last + 2
            && has_fields(m, class_fields(r, class, list)),
{
    let none = Seq::<(Seq<char>, value::Model)>::empty();
    let object = entries::put(none, "$type"@, said(class));
    object_laws::lemma_none::<value::Model>();
    object_laws::lemma_with(none, none, "$type"@, said(class));
    let empty = list.subrange(0, 0);
    assert(none.push(("$type"@, said(class))) =~= class_fields(r, class, empty));
    if list.len() > 0 {
        lemma_last(r, class, start + 1, start + size, last, list, 0);
    }
    lemma_properties(r, class, start + 1, start + size, last, list, 0, object);
    reveal(several);
}

proof fn lemma_last(
    r: Resource,
    class: Seq<char>,
    start: nat,
    end: nat,
    last: nat,
    list: Seq<Property>,
    k: nat,
)
    requires
        k < list.len(),
        in_row(list, start, last),
    ensures
        list[k as int].at <= last,
    decreases list.len() - k,
{
    if k + 1 < list.len() {
        assert(list[k as int + 1].at == list[k as int].at + list[k as int].size + 8);
        lemma_last(r, class, start, end, last, list, k + 1);
    }
}

// ---------------------------------------------------------------------------
// Arrays
// ---------------------------------------------------------------------------

/// The size of the elements of an array, for the types whose values have the same size.
pub open spec fn width_of(t: Seq<char>) -> nat {
    if t == "Bool"@ || t == "Int8"@ || t == "Uint8"@ {
        1
    } else if t == "Int16"@ || t == "Uint16"@ || t == "CName"@ {
        2
    } else if t == "Int32"@ || t == "Uint32"@ || t == "Float"@ {
        4
    } else if t == "Int64"@ || t == "Uint64"@ || t == "Double"@ || t == "CRUID"@ || t
        == "CDateTime"@ || t == "TweakDBID"@ || t == "gamedataLocKeyWrapper"@ {
        8
    } else if t == "CGUID"@ {
        16
    } else if codec_leaf_laws::handles(t) {
        4
    } else if codec_leaf_laws::refers(t) {
        2
    } else {
        0
    }
}

proof fn lemma_width(r: Resource, t: Seq<char>)
    requires
        width_of(t) > 0,
    ensures
        codec::shape(r, t) == codec::Shape::Leaf,
        codec::type_size(t) == Some(width_of(t)),
{
    reveal_strlit("serializationDeferredDataBuffer");
    assert("serializationDeferredDataBuffer"@.len() == 31);
    assert("serializationDeferredDataBuffer"@[0] == 's');
    codec_leaf_laws::lemma_types();
    reveal_strlit("CName");
    reveal_strlit("TweakDBID");
    reveal_strlit("gamedataLocKeyWrapper");
    reveal_strlit("CGUID");
    assert("CName"@.len() == 5 && "TweakDBID"@.len() == 9 && "gamedataLocKeyWrapper"@.len() == 21
        && "CGUID"@.len() == 5);
    if codec_leaf_laws::handles(t) {
        codec_leaf_laws::lemma_handles(r, t);
        codec_leaf_laws::lemma_unsized(t);
    } else if codec_leaf_laws::refers(t) {
        codec_leaf_laws::lemma_refers(r, t);
        codec_leaf_laws::lemma_unsized(t);
    }
}

#[verifier::opaque]
spec fn read_on(
    r: Resource,
    t: Seq<char>,
    cursor: nat,
    end: nat,
    left: nat,
    found: Seq<value::Model>,
) -> Reading {
    codec::elements(r, t, cursor, end, left, found)
}

#[verifier::opaque]
spec fn holds(r: Resource, t: Seq<char>, at: nat, m: value::Model) -> bool {
    codec::value_at(r, t, at, width_of(t)) == Ok::<(value::Model, nat), Fault>(
        (m, at + width_of(t)),
    )
}

proof fn lemma_element(
    r: Resource,
    t: Seq<char>,
    at: nat,
    end: nat,
    left: nat,
    found: Seq<value::Model>,
    m: value::Model,
)
    requires
        width_of(t) > 0,
        left > 0,
        at + width_of(t) <= end <= r.bytes.len(),
        holds(r, t, at, m),
    ensures
        read_on(r, t, at, end, left, found) == read_on(
            r,
            t,
            at + width_of(t),
            end,
            (left - 1) as nat,
            found.push(m),
        ),
{
    lemma_width(r, t);
    codec_leaf_laws::lemma_leaf(r, t, at, width_of(t));
    reveal(read_on);
    reveal(holds);
}

proof fn lemma_elements(
    r: Resource,
    t: Seq<char>,
    first: nat,
    end: nat,
    items: Seq<value::Model>,
    k: nat,
)
    requires
        width_of(t) > 0,
        k <= items.len(),
        first + width_of(t) * items.len() <= end <= r.bytes.len(),
        forall|i: nat|
            i < items.len() ==> holds(
                r,
                t,
                first + #[trigger] (width_of(t) * i),
                items[i as int],
            ),
    ensures
        read_on(
            r,
            t,
            first + width_of(t) * k,
            end,
            (items.len() - k) as nat,
            items.subrange(0, k as int),
        ) == Ok::<(value::Model, nat), Fault>(
            (value::Model::Array(items), first + width_of(t) * items.len()),
        ),
    decreases items.len() - k,
{
    let w = width_of(t);
    if k == items.len() {
        assert(items.subrange(0, k as int) =~= items);
        reveal(read_on);
    } else {
        let at = first + w * k;
        assert(holds(r, t, first + (w * k), items[k as int]));
        assert(w * (k + 1) == w * k + w) by (nonlinear_arith);
        assert(w * (k + 1) <= w * items.len()) by (nonlinear_arith)
            requires
                k + 1 <= items.len(),
        ;
        lemma_element(
            r,
            t,
            at,
            end,
            (items.len() - k) as nat,
            items.subrange(0, k as int),
            items[k as int],
        );
        assert(items.subrange(0, k as int).push(items[k as int]) =~= items.subrange(
            0,
            k as int + 1,
        ));
        lemma_elements(r, t, first, end, items, k + 1);
    }
}

/// An array is stored as the number of its elements and the elements behind each other:
/// element `i` of a type of a size stands behind `i` times that size.
pub proof fn law_array_read(
    r: Resource,
    t: Seq<char>,
    start: nat,
    size: nat,
    items: Seq<value::Model>,
)
    requires
        width_of(t) > 0,
        start + size <= r.bytes.len(),
        4 + width_of(t) * items.len() <= size,
        four(r.bytes, start) == items.len(),
        forall|i: nat|
            i < items.len() ==> codec::value_at(
                r,
                t,
                start + 4 + #[trigger] (width_of(t) * i),
                width_of(t),
            ) == Ok::<(value::Model, nat), Fault>(
                (items[i as int], start + 4 + width_of(t) * i + width_of(t)),
            ),
    ensures
        codec::value_at(r, "array:"@ + t, start, size) == Ok::<(value::Model, nat), Fault>(
            (value::Model::Array(items), start + 4 + width_of(t) * items.len()),
        ),
{
    codec_leaf_laws::lemma_numbers(r.bytes, start);
    lemma_array(r, t);
    assert(width_of(t) * 0 == 0) by (nonlinear_arith);
    assert forall|i: nat| i < items.len() implies holds(
        r,
        t,
        start + 4 + #[trigger] (width_of(t) * i),
        items[i as int],
    ) by {
        reveal(holds);
    }
    lemma_elements(r, t, start + 4, start + size, items, 0);
    reveal(read_on);
    assert(items.subrange(0, 0) =~= Seq::<value::Model>::empty());
    lemma_counted(r, t, start, size);
}

proof fn lemma_counted(r: Resource, t: Seq<char>, start: nat, size: nat)
    requires
        codec::shape(r, "array:"@ + t) == codec::Shape::Array(t),
        start + size <= r.bytes.len(),
        size >= 4,
        start + 4 <= r.bytes.len(),
    ensures
        codec::value_at(r, "array:"@ + t, start, size) == codec::elements(
            r,
            t,
            start + 4,
            start + size,
            four(r.bytes, start),
            Seq::empty(),
        ),
{
    codec_leaf_laws::lemma_numbers(r.bytes, start);
}

proof fn lemma_array(r: Resource, t: Seq<char>)
    ensures
        codec::shape(r, "array:"@ + t) == codec::Shape::Array(t),
{
    let whole = "array:"@ + t;
    reveal_strlit("array:");
    assert(whole.subrange(0, 6) =~= "array:"@);
    assert(whole.subrange(6, whole.len() as int) =~= t);
    codec_leaf_laws::lemma_array_unnamed(whole);
}

} // verus!
