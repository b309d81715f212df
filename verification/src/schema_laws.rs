//! What merging leaves of two schemas, and what metadata says.

use crate::entries;
use crate::schema;
use crate::schema::{ClassModel, RedmodClass, RedmodProperty, SchemaModel};
use vstd::prelude::*;

verus! {

/// Entries that others are set over hold what the others have, and else what they had.
pub proof fn law_extended<V>(
    own: Seq<(Seq<char>, V)>,
    others: Seq<(Seq<char>, V)>,
    key: Seq<char>,
)
    requires
        entries::rising(own),
        entries::rising(others),
    ensures
        entries::rising(schema::extended(own, others)),
        entries::find(schema::extended(own, others), key) == (if entries::find(others, key)
            is Some {
            entries::find(others, key)
        } else {
            entries::find(own, key)
        }),
    decreases others.len(),
{
    if others.len() > 0 {
        let front = others.drop_last();
        let last = others.last();
        assert forall|i: int, j: int| 0 <= i < j < front.len() implies #[trigger]
        entries::text_less(front[i].0, front[j].0) by {
            assert(entries::text_less(others[i].0, others[j].0));
        }
        law_extended(own, front, key);
        let before = schema::extended(own, front);
        entries::law_put_rising(before, last.0, last.1);
        if key == last.0 {
            entries::law_find_put(before, last.0, last.1);
            entries::lemma_find_is(others, others.len() - 1);
        } else {
            entries::law_find_other(before, last.0, last.1, key);
            lemma_front(others, key);
        }
    }
}

proof fn lemma_front<V>(others: Seq<(Seq<char>, V)>, key: Seq<char>)
    requires
        others.len() > 0,
        others.last().0 != key,
    ensures
        entries::find(others, key) == entries::find(others.drop_last(), key),
    decreases others.len(),
{
    let front = others.drop_last();
    if others.len() == 1 {
        assert(others.drop_first().len() == 0);
    } else if others[0].0 != key {
        lemma_front(others.drop_first(), key);
        assert(others.drop_first().drop_last() =~= front.drop_first());
    }
}

/// A class that another is laid over has what the other states, and else its own; it
/// keeps the properties that the other lacks.
pub proof fn law_overlaid(own: ClassModel, incoming: ClassModel, name: Seq<char>)
    requires
        entries::rising(own.properties),
        entries::rising(incoming.properties),
    ensures
        ({
            let class = schema::overlaid(own, incoming);
            &&& class.base == if incoming.base is Some {
                incoming.base
            } else {
                own.base
            }
            &&& class.flags == if incoming.flags is Some {
                incoming.flags
            } else {
                own.flags
            }
            &&& class.size == if incoming.size is Some {
                incoming.size
            } else {
                own.size
            }
            &&& class.alignment == if incoming.alignment is Some {
                incoming.alignment
            } else {
                own.alignment
            }
            &&& entries::find(class.properties, name) == if entries::find(
                incoming.properties,
                name,
            ) is Some {
                entries::find(incoming.properties, name)
            } else {
                entries::find(own.properties, name)
            }
        }),
{
    law_extended(own.properties, incoming.properties, name);
}

/// A merged schema knows the enumerations, bit fields and simple types of both, and the
/// aliases of both, of which those of the other go first.
pub proof fn law_merged(own: SchemaModel, other: SchemaModel, name: Seq<char>)
    requires
        entries::rising(own.enums),
        entries::rising(own.bitfields),
        entries::rising(own.aliases),
        entries::rising(own.simple_types),
        entries::rising(other.enums),
        entries::rising(other.bitfields),
        entries::rising(other.aliases),
        entries::rising(other.simple_types),
    ensures
        ({
            let all = schema::merged(own, other);
            &&& all.classes == schema::merged_classes(own.classes, other.classes)
            &&& entries::find(all.enums, name) is Some <==> entries::find(own.enums, name) is Some
                || entries::find(other.enums, name) is Some
            &&& entries::find(all.bitfields, name) is Some <==> entries::find(
                own.bitfields,
                name,
            ) is Some || entries::find(other.bitfields, name) is Some
            &&& entries::find(all.simple_types, name) is Some <==> entries::find(
                own.simple_types,
                name,
            ) is Some || entries::find(other.simple_types, name) is Some
            &&& entries::find(all.aliases, name) == if entries::find(other.aliases, name)
                is Some {
                entries::find(other.aliases, name)
            } else {
                entries::find(own.aliases, name)
            }
        }),
{
    law_extended(own.enums, other.enums, name);
    law_extended(own.bitfields, other.bitfields, name);
    law_extended(own.simple_types, other.simple_types, name);
    law_extended(own.aliases, other.aliases, name);
}

proof fn lemma_properties(list: Seq<RedmodProperty>)
    ensures
        entries::rising(schema::metadata_properties(list)),
    decreases list.len(),
{
    if list.len() > 0 {
        lemma_properties(list.drop_last());
        entries::law_put_rising(
            schema::metadata_properties(list.drop_last()),
            list.last().name@,
            schema::metadata_property(list.last()),
        );
    }
}

/// A class of metadata has each of its properties, with its type, its offset and its
/// flags, under its name. Of two of one name it has the later.
pub proof fn law_metadata_property(list: Seq<RedmodProperty>, i: nat)
    requires
        i < list.len(),
        forall|k: int| i < k < list.len() ==> (#[trigger] list[k]).name@ != list[i as int].name@,
    ensures
        entries::find(schema::metadata_properties(list), list[i as int].name@) matches Some(p)
            && p.cs_type == list[i as int].red_type@ && p.red_type == Some(
            list[i as int].red_type@,
        ) && p.offset == Some(list[i as int].offset) && p.flags == Some(list[i as int].flags)
            && p.ordinal is None,
    decreases list.len(),
{
    let front = list.drop_last();
    let last = list.last();
    lemma_properties(front);
    let before = schema::metadata_properties(front);
    if i == list.len() - 1 {
        entries::law_find_put(before, last.name@, schema::metadata_property(last));
    } else {
        assert(list[list.len() - 1].name@ != list[i as int].name@);
        assert forall|k: int| i < k < front.len() implies (#[trigger] front[k]).name@
            != front[i as int].name@ by {
            assert(list[k].name@ != list[i as int].name@);
        }
        law_metadata_property(front, i);
        entries::law_find_other(
            before,
            last.name@,
            schema::metadata_property(last),
            list[i as int].name@,
        );
    }
}

/// A class of metadata is derived from its parent, if it names one.
pub proof fn law_metadata_class(class: RedmodClass)
    ensures
        schema::metadata_class(class).base == (if class.parent@.len() == 0 {
            None
        } else {
            Some(class.parent@)
        }),
        schema::metadata_class(class).flags == Some(class.flags),
        schema::metadata_class(class).size == Some(class.size),
        schema::metadata_class(class).alignment == Some(class.alignment),
        schema::metadata_class(class).properties == schema::metadata_properties(
            class.properties@,
        ),
{
}

} // verus!
