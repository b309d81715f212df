//! The fields of a written class are found again where they were written.

use crate::binary;
use crate::redpackage;
use crate::redpackage_decoder;
use crate::redpackage_encoder;
use crate::redpackage_encoder::Written;
use crate::redpackage_pools::{Source, State};
use crate::redpackage_reader;
use crate::redpackage_writer;
use crate::sequence;
use crate::value;
use vstd::prelude::*;

verus! {

/// A field of a class that a value gives anew.
pub open spec fn written_member(
    source: Source,
    state: State,
    class: Seq<char>,
    name: Seq<char>,
    t: Seq<char>,
    inner: value::Model,
    path: Seq<nat>,
    place: nat,
    end: nat,
) -> Written {
    if class == "worldCompiledEffectInfo"@ && source.package.unknown1 == 2
        && redpackage_decoder::effect_table(name) {
        redpackage_encoder::written_effect(source, state, name, inner, place)
    } else {
        redpackage_writer::written_value(source, state, t, inner, path, place, end)
    }
}

/// Whether bytes hold a member at a place, as some state of the pools gives it.
pub open spec fn holds_member(
    bytes: Seq<u8>,
    at: nat,
    source: Source,
    state: State,
    class: Seq<char>,
    name: Seq<char>,
    t: Seq<char>,
    inner: value::Model,
    path: Seq<nat>,
    place: nat,
    end: nat,
) -> bool {
    let written = written_member(source, state, class, name, t, inner, path, place, end);
    written is Ok && sequence::stands(bytes, at, written->Ok_0.0)
}

/// Whether bytes hold field `k` of a class at a place: as the template has it
/// where the value leaves it out, or else as the value gives it.
pub open spec fn holds_field(
    bytes: Seq<u8>,
    at: nat,
    source: Source,
    class: Seq<char>,
    value: value::Model,
    path: Seq<nat>,
    fields: Seq<(nat, nat, nat)>,
    k: nat,
    limit: nat,
) -> bool {
    let p = source.package;
    let (name_index, type_index, place) = fields[k as int];
    let end = redpackage_reader::field_limit(fields, k, limit);
    match (
        redpackage_reader::name_of(p, name_index, place),
        redpackage_reader::name_of(p, type_index, place),
    ) {
        (Ok(name), Ok(t)) => match redpackage_writer::member_position(value, name) {
            None => place <= end <= p.bytes.len() && sequence::stands(
                bytes,
                at,
                p.bytes.subrange(place as int, end as int),
            ),
            Some(j) => exists|state: State| #[trigger]
                holds_member(
                    bytes,
                    at,
                    source,
                    state,
                    class,
                    name,
                    t,
                    value->Object_0[j as int].1,
                    path.push(j),
                    place,
                    end,
                ),
        },
        _ => false,
    }
}

/// The descriptor of a field.
pub open spec fn descriptor(field: (nat, nat, nat), offset: nat) -> Seq<u8> {
    binary::le_bytes(field.0, 2) + binary::le_bytes(field.1, 2) + binary::le_bytes(offset, 4)
}

proof fn lemma_descriptor_len(field: (nat, nat, nat), offset: nat)
    ensures
        descriptor(field, offset).len() == 8,
{
    binary::lemma_le_bytes_len(field.0, 2);
    binary::lemma_le_bytes_len(field.1, 2);
    binary::lemma_le_bytes_len(offset, 4);
}

proof fn lemma_longer<T>(first: Seq<T>, second: Seq<T>, whole: Seq<T>, at: nat, part: Seq<T>)
    requires
        first.len() + second.len() <= whole.len(),
        whole.subrange(0, (first.len() + second.len()) as int) == first + second,
        at == first.len(),
        part.len() <= second.len(),
        second.subrange(0, part.len() as int) == part,
    ensures
        whole.subrange(0, first.len() as int) == first,
        sequence::stands(whole, at, part),
{
    let both = whole.subrange(0, (first.len() + second.len()) as int);
    assert forall|i: int| 0 <= i < first.len() implies whole[i] == first[i] by {
        assert(both[i] == whole[i]);
    }
    assert(whole.subrange(0, first.len() as int) =~= first);
    assert forall|i: int| 0 <= i < part.len() implies whole[at + i] == part[i] by {
        assert(both[at + i] == whole[at + i]);
        assert(second.subrange(0, part.len() as int)[i] == second[i]);
    }
    assert(whole.subrange(at as int, (at + part.len()) as int) =~= part);
}

/// Whether a table and a body hold field `k` of a class at an offset.
#[verifier::opaque]
pub open spec fn field_there(
    source: Source,
    class: Seq<char>,
    value: value::Model,
    path: Seq<nat>,
    fields: Seq<(nat, nat, nat)>,
    k: nat,
    limit: nat,
    table: Seq<u8>,
    body: Seq<u8>,
    offset: nat,
) -> bool {
    &&& 2 + 8 * fields.len() <= offset <= 2 + 8 * fields.len() + body.len()
    &&& offset <= 0xffff_ffff
    &&& sequence::stands(table, 8 * k, descriptor(fields[k as int], offset))
    &&& holds_field(
        body,
        (offset - 2 - 8 * fields.len()) as nat,
        source,
        class,
        value,
        path,
        fields,
        k,
        limit,
    )
}

/// The table and the values of the fields from index `i` on, and the offsets
/// of the values.
pub proof fn take_fields(
    source: Source,
    state: State,
    class: Seq<char>,
    value: value::Model,
    path: Seq<nat>,
    fields: Seq<(nat, nat, nat)>,
    i: nat,
    start: nat,
    limit: nat,
    descriptors: Seq<u8>,
    body: Seq<u8>,
) -> (result: (Seq<u8>, Seq<u8>, Seq<nat>))
    requires
        i <= fields.len(),
        descriptors.len() == 8 * i,
        redpackage_writer::written_fields(
            source,
            state,
            class,
            value,
            path,
            fields,
            i,
            start,
            limit,
            descriptors,
            body,
        ) is Ok,
    ensures
        redpackage_writer::written_fields(
            source,
            state,
            class,
            value,
            path,
            fields,
            i,
            start,
            limit,
            descriptors,
            body,
        )->Ok_0.0 == binary::le_bytes(fields.len(), 2) + result.0 + result.1,
        result.0.len() == 8 * fields.len(),
        result.0.subrange(0, descriptors.len() as int) == descriptors,
        body.len() <= result.1.len(),
        result.1.subrange(0, body.len() as int) == body,
        result.2.len() == fields.len(),
        i < fields.len() ==> result.2[i as int] == 2 + 8 * fields.len() + body.len(),
        forall|k: nat|
            i <= k < fields.len() ==> #[trigger] field_there(
                source,
                class,
                value,
                path,
                fields,
                k,
                limit,
                result.0,
                result.1,
                result.2[k as int],
            ),
    decreases fields.len() - i,
{
    if i == fields.len() {
        assert(descriptors.subrange(0, descriptors.len() as int) =~= descriptors);
        assert(body.subrange(0, body.len() as int) =~= body);
        (descriptors, body, Seq::new(fields.len(), |k: int| 0nat))
    } else {
        let p = source.package;
        let (name_index, type_index, place) = fields[i as int];
        let end = redpackage_reader::field_limit(fields, i, limit);
        let offset = 2 + 8 * fields.len() + body.len();
        let own = descriptor(fields[i as int], offset);
        lemma_descriptor_len(fields[i as int], offset);
        let described = descriptors + binary::le_bytes(name_index, 2) + binary::le_bytes(
            type_index,
            2,
        ) + binary::le_bytes(offset, 4);
        assert(described =~= descriptors + own);
        let name = redpackage_reader::name_of(p, name_index, place)->Ok_0;
        let t = redpackage_reader::name_of(p, type_index, place)->Ok_0;
        match redpackage_writer::member_position(value, name) {
            None => {
                let kept = p.bytes.subrange(place as int, end as int);
                let rest = take_fields(
                    source,
                    state,
                    class,
                    value,
                    path,
                    fields,
                    i + 1,
                    start,
                    limit,
                    described,
                    body + kept,
                );
                assert(kept.subrange(0, kept.len() as int) =~= kept);
                lemma_longer(body, kept, rest.1, body.len(), kept);
                lemma_first_field(
                    source,
                    class,
                    value,
                    path,
                    fields,
                    i,
                    limit,
                    descriptors,
                    own,
                    offset,
                    rest.0,
                    rest.1,
                );
                (rest.0, rest.1, rest.2.update(i as int, offset))
            },
            Some(k) => {
                let inner = value->Object_0[k as int].1;
                let written = written_member(
                    source,
                    state,
                    class,
                    name,
                    t,
                    inner,
                    path.push(k),
                    place,
                    end,
                );
                let (more, behind, after) = written->Ok_0;
                let padding = if behind < end {
                    p.bytes.subrange(behind as int, end as int)
                } else {
                    Seq::empty()
                };
                let rest = take_fields(
                    source,
                    after,
                    class,
                    value,
                    path,
                    fields,
                    i + 1,
                    start,
                    limit,
                    described,
                    body + more + padding,
                );
                assert(body + more + padding =~= body + (more + padding));
                assert((more + padding).subrange(0, more.len() as int) =~= more);
                lemma_longer(body, more + padding, rest.1, body.len(), more);
                assert(holds_member(
                    rest.1,
                    body.len(),
                    source,
                    state,
                    class,
                    name,
                    t,
                    inner,
                    path.push(k),
                    place,
                    end,
                ));
                lemma_first_field(
                    source,
                    class,
                    value,
                    path,
                    fields,
                    i,
                    limit,
                    descriptors,
                    own,
                    offset,
                    rest.0,
                    rest.1,
                );
                (rest.0, rest.1, rest.2.update(i as int, offset))
            },
        }
    }
}

proof fn lemma_first_field(
    source: Source,
    class: Seq<char>,
    value: value::Model,
    path: Seq<nat>,
    fields: Seq<(nat, nat, nat)>,
    i: nat,
    limit: nat,
    descriptors: Seq<u8>,
    own: Seq<u8>,
    offset: nat,
    table: Seq<u8>,
    body: Seq<u8>,
)
    requires
        i < fields.len(),
        descriptors.len() == 8 * i,
        own == descriptor(fields[i as int], offset),
        own.len() == 8,
        table.len() == 8 * fields.len(),
        table.subrange(0, (8 * i + 8) as int) == descriptors + own,
        2 + 8 * fields.len() <= offset <= 2 + 8 * fields.len() + body.len(),
        offset <= 0xffff_ffff,
        holds_field(
            body,
            (offset - 2 - 8 * fields.len()) as nat,
            source,
            class,
            value,
            path,
            fields,
            i,
            limit,
        ),
    ensures
        table.subrange(0, descriptors.len() as int) == descriptors,
        field_there(source, class, value, path, fields, i, limit, table, body, offset),
{
    reveal(field_there);
    assert(own.subrange(0, own.len() as int) =~= own);
    lemma_longer(descriptors, own, table, 8 * i, own);
}

proof fn lemma_range(bytes: Seq<u8>, start: nat, at: nat, left: nat, found: Seq<(nat, nat, nat)>)
    requires
        redpackage_reader::fields_from(bytes, start, at, left, found) is Ok,
        forall|k: int|
            0 <= k < found.len() ==> (#[trigger] found[k]).0 < 0x1_0000 && found[k].1 < 0x1_0000,
    ensures
        redpackage_reader::fields_from(bytes, start, at, left, found)->Ok_0.len() == found.len()
            + left,
        forall|k: int|
            0 <= k < found.len() + left ==> (#[trigger] redpackage_reader::fields_from(
                bytes,
                start,
                at,
                left,
                found,
            )->Ok_0[k]).0 < 0x1_0000 && redpackage_reader::fields_from(
                bytes,
                start,
                at,
                left,
                found,
            )->Ok_0[k].1 < 0x1_0000,
    decreases left,
{
    if left > 0 {
        binary::lemma_byte_ranges();
        let name = redpackage::number(bytes, at, 2)->Ok_0;
        let kind = redpackage::number(bytes, at + 2, 2)->Ok_0;
        let relative = redpackage::number(bytes, at + 4, 4)->Ok_0;
        let place = redpackage::moved(start, relative)->Ok_0;
        binary::law_write_read(bytes.subrange(at as int, (at + 2) as int));
        binary::law_write_read(bytes.subrange((at + 2) as int, (at + 4) as int));
        lemma_range(bytes, start, at + 8, (left - 1) as nat, found.push((name, kind, place)));
    }
}

/// Fields at their new places.
pub open spec fn placed(fields: Seq<(nat, nat, nat)>, offsets: Seq<nat>, at: nat) -> Seq<
    (nat, nat, nat),
> {
    Seq::new(fields.len(), |k: int| (fields[k].0, fields[k].1, at + offsets[k]))
}

proof fn lemma_read_fields(
    bytes: Seq<u8>,
    at: nat,
    table: Seq<u8>,
    fields: Seq<(nat, nat, nat)>,
    offsets: Seq<nat>,
    i: nat,
)
    requires
        i <= fields.len(),
        offsets.len() == fields.len(),
        sequence::stands(bytes, at + 2, table),
        table.len() == 8 * fields.len(),
        forall|k: int|
            0 <= k < fields.len() ==> (#[trigger] fields[k]).0 < 0x1_0000 && fields[k].1
                < 0x1_0000,
        forall|k: int|
            0 <= k < fields.len() ==> #[trigger] offsets[k] <= 0xffff_ffff && at + offsets[k]
                <= usize::MAX && sequence::stands(
                table,
                (8 * k) as nat,
                descriptor(fields[k], offsets[k]),
            ),
    ensures
        redpackage_reader::fields_from(
            bytes,
            at,
            at + 2 + 8 * i,
            (fields.len() - i) as nat,
            placed(fields, offsets, at).subrange(0, i as int),
        ) == Ok::<Seq<(nat, nat, nat)>, redpackage::Fault>(placed(fields, offsets, at)),
    decreases fields.len() - i,
{
    let all = placed(fields, offsets, at);
    if i == fields.len() {
        assert(all.subrange(0, i as int) =~= all);
    } else {
        let field = fields[i as int];
        let offset = offsets[i as int];
        let spot = at + 2 + 8 * i;
        let own = descriptor(field, offset);
        assert(sequence::stands(table, 8 * i, own));
        sequence::lemma_stands_within(bytes, at + 2, table, 8 * i, own);
        binary::lemma_byte_ranges();
        let first = binary::le_bytes(field.0, 2);
        let second = binary::le_bytes(field.1, 2);
        let third = binary::le_bytes(offset, 4);
        binary::lemma_le_bytes_len(field.0, 2);
        binary::lemma_le_bytes_len(field.1, 2);
        binary::lemma_le_bytes_len(offset, 4);
        sequence::lemma_stands_split(bytes, spot, first + second, third);
        sequence::lemma_stands_split(bytes, spot, first, second);
        binary::lemma_number_stands(bytes, spot, field.0, 2);
        binary::lemma_number_stands(bytes, spot + 2, field.1, 2);
        binary::lemma_number_stands(bytes, spot + 4, offset, 4);
        assert(all.subrange(0, i as int).push((field.0, field.1, at + offset)) =~= all.subrange(
            0,
            (i + 1) as int,
        ));
        lemma_read_fields(bytes, at, table, fields, offsets, i + 1);
    }
}

/// A written class has the fields of its template, in the same order, and where
/// its table says a field is, it is: as the template has it where the value
/// leaves it out, and else as the value gives it.
#[verifier::rlimit(40)]
pub proof fn law_class_read(
    source: Source,
    state: State,
    class: Seq<char>,
    value: value::Model,
    path: Seq<nat>,
    start: nat,
    limit: nat,
    bytes: Seq<u8>,
    at: nat,
)
    requires
        redpackage_writer::written_class(source, state, class, value, path, start, limit) is Ok,
        sequence::stands(
            bytes,
            at,
            redpackage_writer::written_class(
                source,
                state,
                class,
                value,
                path,
                start,
                limit,
            )->Ok_0.0,
        ),
        bytes.len() <= usize::MAX,
    ensures
        redpackage_reader::fields_of(bytes, at) is Ok,
        ({
            let fields = redpackage_reader::fields_of(source.package.bytes, start)->Ok_0;
            let read = redpackage_reader::fields_of(bytes, at)->Ok_0;
            &&& read.len() == fields.len()
            &&& forall|k: int|
                0 <= k < fields.len() ==> (#[trigger] read[k]).0 == fields[k].0 && read[k].1
                    == fields[k].1 && holds_field(
                    bytes,
                    read[k].2,
                    source,
                    class,
                    value,
                    path,
                    fields,
                    k as nat,
                    limit,
                )
        }),
{
    let fields = redpackage_reader::fields_of(source.package.bytes, start)->Ok_0;
    let count = redpackage::number(source.package.bytes, start, 2)->Ok_0;
    binary::lemma_byte_ranges();
    binary::law_write_read(source.package.bytes.subrange(start as int, (start + 2) as int));
    lemma_range(source.package.bytes, start, start + 2, count, Seq::empty());
    let (table, body, offsets) = take_fields(
        source,
        state,
        class,
        value,
        path,
        fields,
        0,
        start,
        limit,
        Seq::empty(),
        Seq::empty(),
    );
    let head = binary::le_bytes(fields.len(), 2);
    binary::lemma_le_bytes_len(fields.len(), 2);
    sequence::lemma_stands_split(bytes, at, head + table, body);
    sequence::lemma_stands_split(bytes, at, head, table);
    binary::lemma_number_stands(bytes, at, fields.len(), 2);
    assert forall|k: int| 0 <= k < fields.len() implies #[trigger] offsets[k] <= 0xffff_ffff && at
        + offsets[k] <= usize::MAX && sequence::stands(
        table,
        (8 * k) as nat,
        descriptor(fields[k], offsets[k]),
    ) by {
        reveal(field_there);
        assert(field_there(
            source,
            class,
            value,
            path,
            fields,
            k as nat,
            limit,
            table,
            body,
            offsets[k as nat as int],
        ));
    }
    lemma_read_fields(bytes, at, table, fields, offsets, 0);
    let all = placed(fields, offsets, at);
    assert(all.subrange(0, 0) =~= Seq::<(nat, nat, nat)>::empty());
    assert forall|k: int| 0 <= k < fields.len() implies (#[trigger] all[k]).0 == fields[k].0
        && all[k].1 == fields[k].1 && holds_field(
        bytes,
        all[k].2,
        source,
        class,
        value,
        path,
        fields,
        k as nat,
        limit,
    ) by {
        reveal(field_there);
        assert(field_there(
            source,
            class,
            value,
            path,
            fields,
            k as nat,
            limit,
            table,
            body,
            offsets[k as nat as int],
        ));
        lemma_holds(
            bytes,
            at + 2 + 8 * fields.len(),
            body,
            (offsets[k] - 2 - 8 * fields.len()) as nat,
            source,
            class,
            value,
            path,
            fields,
            k as nat,
            limit,
        );
    }
}

proof fn lemma_holds(
    bytes: Seq<u8>,
    at: nat,
    body: Seq<u8>,
    offset: nat,
    source: Source,
    class: Seq<char>,
    value: value::Model,
    path: Seq<nat>,
    fields: Seq<(nat, nat, nat)>,
    k: nat,
    limit: nat,
)
    requires
        sequence::stands(bytes, at, body),
        holds_field(body, offset, source, class, value, path, fields, k, limit),
    ensures
        holds_field(bytes, at + offset, source, class, value, path, fields, k, limit),
{
    let p = source.package;
    let (name_index, type_index, place) = fields[k as int];
    let end = redpackage_reader::field_limit(fields, k, limit);
    let name = redpackage_reader::name_of(p, name_index, place)->Ok_0;
    let t = redpackage_reader::name_of(p, type_index, place)->Ok_0;
    match redpackage_writer::member_position(value, name) {
        None => {
            sequence::lemma_stands_within(
                bytes,
                at,
                body,
                offset,
                p.bytes.subrange(place as int, end as int),
            );
        },
        Some(j) => {
            let inner = value->Object_0[j as int].1;
            let state = choose|state: State| #[trigger]
                holds_member(
                    body,
                    offset,
                    source,
                    state,
                    class,
                    name,
                    t,
                    inner,
                    path.push(j),
                    place,
                    end,
                );
            let written = written_member(
                source,
                state,
                class,
                name,
                t,
                inner,
                path.push(j),
                place,
                end,
            );
            sequence::lemma_stands_within(bytes, at, body, offset, written->Ok_0.0);
            assert(holds_member(
                bytes,
                at + offset,
                source,
                state,
                class,
                name,
                t,
                inner,
                path.push(j),
                place,
                end,
            ));
        },
    }
}

} // verus!
