//! Classes and arrays of a package are written so that they are read back.

use crate::binary;
use crate::entries;
use crate::red_types;
use crate::redpackage;
use crate::redpackage::Fault;
use crate::redpackage_class_laws;
use crate::redpackage_decoder;
use crate::redpackage_effect_laws;
use crate::redpackage_expansion_laws;
use crate::redpackage_expansion_laws::{avoids, shows};
use crate::redpackage_kept_laws::fits;
use crate::redpackage_layout_laws;
use crate::redpackage_layout_laws::Move;
use crate::redpackage_pools::{Source, State};
use crate::redpackage_reader;
use crate::redpackage_reader::{Package, Shape};
use crate::redpackage_state_laws;
use crate::redpackage_state_laws::{kept, lookup, Scene};
use crate::redpackage_value_laws;
use crate::redpackage_writer;
use crate::sequence;
use crate::value::Model;
use vstd::prelude::*;

verus! {

// ---------------------------------------------------------------------------
// Fields
// ---------------------------------------------------------------------------

/// A field of a table is where its descriptor says.
proof fn lemma_field_entry(
    bytes: Seq<u8>,
    start: nat,
    at: nat,
    left: nat,
    found: Seq<(nat, nat, nat)>,
    fields: Seq<(nat, nat, nat)>,
    k: nat,
)
    requires
        redpackage_reader::fields_from(bytes, start, at, left, found) == Ok::<
            Seq<(nat, nat, nat)>,
            Fault,
        >(fields),
        k < left,
    ensures
        fields.len() == found.len() + left,
        redpackage::number(bytes, at + 8 * k, 2) == Ok::<nat, Fault>(
            fields[(found.len() + k) as int].0,
        ),
        redpackage::number(bytes, at + 8 * k + 2, 2) == Ok::<nat, Fault>(
            fields[(found.len() + k) as int].1,
        ),
        redpackage::number(bytes, at + 8 * k + 4, 4) is Ok,
        fields[(found.len() + k) as int].2 == start + redpackage::number(
            bytes,
            at + 8 * k + 4,
            4,
        )->Ok_0,
    decreases left,
{
    let name = redpackage::number(bytes, at, 2)->Ok_0;
    let kind = redpackage::number(bytes, at + 2, 2)->Ok_0;
    let relative = redpackage::number(bytes, at + 4, 4)->Ok_0;
    let next = found.push((name, kind, start + relative));
    redpackage_layout_laws::lemma_fields_front(bytes, start, at + 8, (left - 1) as nat, next);
    if k == 0 {
        assert(fields.subrange(0, next.len() as int)[found.len() as int] == next.last());
    } else {
        lemma_field_entry(bytes, start, at + 8, (left - 1) as nat, next, fields, (k - 1) as nat);
    }
}

/// The next field of a class that is written stands where its descriptor says,
/// and what was written before it stands in front of it.
proof fn lemma_next_field(
    source: Source,
    state: State,
    class: Seq<char>,
    x: Model,
    path: Seq<nat>,
    fields: Seq<(nat, nat, nat)>,
    i: nat,
    start: nat,
    limit: nat,
    descriptors: Seq<u8>,
    body: Seq<u8>,
    written: Seq<u8>,
    after: State,
    bytes: Seq<u8>,
    at: nat,
    read: Seq<(nat, nat, nat)>,
)
    requires
        i <= fields.len(),
        descriptors.len() == 8 * i,
        redpackage_writer::written_fields(
            source,
            state,
            class,
            x,
            path,
            fields,
            i,
            start,
            limit,
            descriptors,
            body,
        ) == Ok::<(Seq<u8>, State), Fault>((written, after)),
        sequence::stands(bytes, at, written),
        redpackage_reader::fields_of(bytes, at) == Ok::<Seq<(nat, nat, nat)>, Fault>(read),
        read.len() == fields.len(),
    ensures
        2 + 8 * fields.len() + body.len() <= written.len(),
        sequence::stands(bytes, at + 2 + 8 * fields.len(), body),
        i < fields.len() ==> read[i as int].2 == at + 2 + 8 * fields.len() + body.len(),
        i == fields.len() ==> written.len() == 2 + 8 * fields.len() + body.len(),
{
    let (table, all, offsets) = redpackage_class_laws::take_fields(
        source,
        state,
        class,
        x,
        path,
        fields,
        i,
        start,
        limit,
        descriptors,
        body,
    );
    let head = binary::le_bytes(fields.len(), 2);
    binary::lemma_le_bytes_len(fields.len(), 2);
    sequence::lemma_stands_split(bytes, at, head + table, all);
    sequence::lemma_stands_split(bytes, at, head, table);
    assert(sequence::stands(all, 0, body));
    sequence::lemma_stands_within(bytes, at + 2 + 8 * fields.len(), all, 0, body);
    if i < fields.len() {
        reveal(redpackage_class_laws::field_there);
        assert(redpackage_class_laws::field_there(
            source,
            class,
            x,
            path,
            fields,
            i,
            limit,
            table,
            all,
            offsets[i as int],
        ));
        let offset = offsets[i as int];
        let field = fields[i as int];
        let own = redpackage_class_laws::descriptor(field, offset);
        let first = binary::le_bytes(field.0, 2);
        let second = binary::le_bytes(field.1, 2);
        let third = binary::le_bytes(offset, 4);
        binary::lemma_le_bytes_len(field.0, 2);
        binary::lemma_le_bytes_len(field.1, 2);
        binary::lemma_le_bytes_len(offset, 4);
        binary::lemma_byte_ranges();
        sequence::lemma_stands_within(bytes, at + 2, table, 8 * i, own);
        sequence::lemma_stands_split(bytes, at + 2 + 8 * i, first + second, third);
        binary::lemma_number_stands(bytes, at + 2 + 8 * i + 4, offset, 4);
        let count = redpackage::number(bytes, at, 2)->Ok_0;
        redpackage_layout_laws::lemma_fields_front(bytes, at, at + 2, count, Seq::empty());
        lemma_field_entry(bytes, at, at + 2, count, Seq::empty(), read, i);
    }
}

/// What stands under other names stays when fields are read.
proof fn lemma_record_keeps(
    p: Package,
    class: Seq<char>,
    fields: Seq<(nat, nat, nat)>,
    i: nat,
    start: nat,
    limit: nat,
    object: Seq<(Seq<char>, Model)>,
    consumed: nat,
    m: Model,
    e: nat,
    key: Seq<char>,
)
    requires
        entries::rising(object),
        redpackage_decoder::record(p, class, fields, i, start, limit, object, consumed) == Ok::<
            (Model, nat),
            Fault,
        >((m, e)),
    ensures
        m is Object,
        entries::rising(m->Object_0),
        entries::find(object, key) is Some ==> entries::find(m->Object_0, key) is Some,
        (forall|k: int| i <= k < fields.len() ==> p.names[(#[trigger] fields[k]).0 as int] != key)
            ==> entries::find(m->Object_0, key) == entries::find(object, key),
    decreases fields.len() - i,
{
    if i < fields.len() {
        redpackage_layout_laws::lemma_record_places(
            p,
            class,
            fields,
            i,
            start,
            limit,
            object,
            consumed,
        );
        redpackage_layout_laws::lemma_record_step(
            p,
            class,
            fields,
            i,
            start,
            limit,
            object,
            consumed,
        );
        let place = fields[i as int].2;
        let end = redpackage_reader::field_limit(fields, i, limit);
        let name = p.names[fields[i as int].0 as int];
        let t = p.names[fields[i as int].1 as int];
        let (inner, behind) = redpackage_layout_laws::field_read(
            p,
            class,
            name,
            t,
            place,
            end,
            start,
            limit,
        )->Ok_0;
        entries::law_put_rising(object, name, inner);
        entries::law_find_put(object, name, inner);
        if key != name {
            entries::law_find_other(object, name, inner, key);
        }
        lemma_record_keeps(
            p,
            class,
            fields,
            i + 1,
            start,
            limit,
            entries::put(object, name, inner),
            behind,
            m,
            e,
            key,
        );
    }
}

/// What a document shows of a field of a class.
proof fn lemma_shown_field(sc: Scene, x: Model, m: Model, name: Seq<char>, inner: Model)
    requires
        m is Object,
        entries::rising(m->Object_0),
        !crate::redpackage_document::is_handle(m->Object_0),
        entries::find(m->Object_0, name) == Some(inner),
        shows(x, m, sc.flat, sc.base),
        avoids(m, sc.roots),
    ensures
        redpackage_writer::member_position(x, name) is Some,
        ({
            let k = redpackage_writer::member_position(x, name)->0;
            k < x->Object_0.len() && shows(x->Object_0[k as int].1, inner, sc.flat, sc.base)
                && redpackage_state_laws::child(x, k) == Some(x->Object_0[k as int].1)
        }),
        avoids(inner, sc.roots),
{
    let list = m->Object_0;
    let shown = x->Object_0;
    entries::lemma_index_of(list, name);
    let i = entries::index_of(list, name)->0;
    assert(shown[i as int].0 == list[i as int].0);
    entries::lemma_index_of(shown, name);
    entries::lemma_find(shown, name);
    assert(entries::find(shown, name) is Some) by {
        if entries::find(shown, name) is None {
            assert(shown[i as int].0 != name);
        }
    }
    let k = entries::index_of(shown, name)->0;
    assert(shown[k as int].0 == list[k as int].0);
    assert(k == i) by {
        entries::lemma_irreflexive(name);
        if k < i {
            assert(entries::text_less(list[k as int].0, list[i as int].0));
        }
        if i < k {
            assert(entries::text_less(list[i as int].0, list[k as int].0));
        }
    }
    redpackage_expansion_laws::lemma_avoids_entry(list, i as int, sc.roots);
}

proof fn lemma_same_place(p: Package, hi: nat)
    requires
        hi <= p.bytes.len() <= usize::MAX,
    ensures
        redpackage_layout_laws::moves(Move { p, q: p, a: 0, b: 0, hi }),
{
}

// ---------------------------------------------------------------------------
// Elements
// ---------------------------------------------------------------------------

/// What is read of a value up to a limit of what holds it.
#[verifier::opaque]
pub open spec fn read_at(p: Package, t: Seq<char>, start: nat, limit: nat) -> redpackage_reader::Reading {
    redpackage_decoder::value_at(p, t, start, redpackage_reader::value_limit(t, start, limit))
}

/// Whether what is read so is in order.
#[verifier::opaque]
pub open spec fn ordered_at(p: Package, t: Seq<char>, start: nat, limit: nat) -> bool {
    let last = redpackage_reader::value_limit(t, start, limit);
    if redpackage_reader::shape(p.classes, t) is Leaf {
        redpackage_layout_laws::leaf_in_order(p, t, start, last)
    } else {
        redpackage_layout_laws::value_in_order(p, t, start, last)
    }
}

/// Whether a value may be written up to a limit.
#[verifier::opaque]
pub open spec fn may_write(p: Package, t: Seq<char>, lr: nat, lw: nat, e: nat) -> bool {
    red_types::type_size(t) is Some || e <= lw <= lr
}

/// A value ends where it did when it is read up to a nearer limit.
proof fn lemma_nearer(p: Package, t: Seq<char>, start: nat, lr: nat, lw: nat, m: Model, e: nat)
    requires
        lr <= p.bytes.len() <= usize::MAX,
        read_at(p, t, start, lr) == Ok::<(Model, nat), Fault>((m, e)),
        ordered_at(p, t, start, lr),
        e <= lw <= lr,
    ensures
        read_at(p, t, start, lw) == Ok::<(Model, nat), Fault>((m, e)),
        may_write(p, t, lr, redpackage_reader::value_limit(t, start, lw), e),
        e >= start,
{
    reveal(read_at);
    reveal(ordered_at);
    reveal(may_write);
    lemma_same_place(p, lr);
    let v = Move { p, q: p, a: 0, b: 0, hi: lr };
    redpackage_layout_laws::lemma_limits(v, t, start, lr, lw);
    let last = redpackage_reader::value_limit(t, start, lr);
    let last2 = redpackage_reader::value_limit(t, start, lw);
    if redpackage_reader::shape(p.classes, t) is Leaf {
        redpackage_layout_laws::lemma_moved_leaf(v, t, start, last, last2, m, e);
    } else if red_types::type_size(t) is Some {
        redpackage_layout_laws::lemma_moved_sized(v, t, start, last, last2, m, e);
    } else {
        redpackage_layout_laws::lemma_moved_value(v, t, start, last, last2, m, e);
    }
}

/// The elements of an array are read one after the other.
proof fn lemma_elements_step(
    p: Package,
    inner: Seq<char>,
    cursor: nat,
    left: nat,
    limit: nat,
    found: Seq<Model>,
)
    requires
        left > 0,
    ensures
        redpackage_decoder::elements(p, inner, cursor, left, limit, found) == match read_at(
            p,
            inner,
            cursor,
            limit,
        ) {
            Err(f) => Err(f),
            Ok((m, end)) => if end <= cursor || end > limit {
                redpackage::fault(cursor, "array element bounds"@)
            } else {
                redpackage_decoder::elements(
                    p,
                    inner,
                    end,
                    (left - 1) as nat,
                    limit,
                    found.push(m),
                )
            },
        },
        redpackage_layout_laws::elements_in_order(p, inner, cursor, left, limit) ==> ordered_at(
            p,
            inner,
            cursor,
            limit,
        ) && (read_at(p, inner, cursor, limit) matches Ok((_, end)) ==> (cursor < end <= limit
            ==> redpackage_layout_laws::elements_in_order(
            p,
            inner,
            end,
            (left - 1) as nat,
            limit,
        ))),
{
    reveal(read_at);
    reveal(ordered_at);
}

/// The places of the elements of an array are found one after the other.
proof fn lemma_spots_step(
    p: Package,
    inner: Seq<char>,
    cursor: nat,
    left: nat,
    limit: nat,
    found: Seq<(nat, nat)>,
)
    requires
        left > 0,
    ensures
        redpackage_writer::spots(p, inner, cursor, left, limit, found) == match read_at(
            p,
            inner,
            cursor,
            limit,
        ) {
            Err(f) => Err(f),
            Ok((_, end)) => if end + 64 > usize::MAX {
                redpackage::fault(cursor, "array element bounds"@)
            } else {
                redpackage_writer::spots(
                    p,
                    inner,
                    end,
                    (left - 1) as nat,
                    limit,
                    found.push(
                        (cursor, redpackage_reader::value_limit(inner, cursor, limit)),
                    ),
                )
            },
        },
{
    reveal(read_at);
}

proof fn lemma_spots_front(
    p: Package,
    inner: Seq<char>,
    cursor: nat,
    left: nat,
    limit: nat,
    found: Seq<(nat, nat)>,
)
    ensures
        redpackage_writer::spots(p, inner, cursor, left, limit, found) matches Ok((places, _))
            ==> places.len() == found.len() + left && places.subrange(0, found.len() as int)
            == found,
    decreases left,
{
    if left == 0 {
        assert(found.subrange(0, found.len() as int) =~= found);
    } else {
        lemma_spots_step(p, inner, cursor, left, limit, found);
        match read_at(p, inner, cursor, limit) {
            Err(_) => {},
            Ok((_, end)) => {
                let next = found.push(
                    (cursor, redpackage_reader::value_limit(inner, cursor, limit)),
                );
                lemma_spots_front(p, inner, end, (left - 1) as nat, limit, next);
                match redpackage_writer::spots(p, inner, end, (left - 1) as nat, limit, next) {
                    Ok((places, _)) => {
                        assert forall|i: int| 0 <= i < found.len() implies places[i]
                            == found[i] by {
                            assert(places.subrange(0, next.len() as int)[i] == next[i]);
                        }
                        assert(places.subrange(0, found.len() as int) =~= found);
                    },
                    Err(_) => {},
                }
            },
        }
    }
}

proof fn lemma_elements_front(
    p: Package,
    inner: Seq<char>,
    cursor: nat,
    left: nat,
    limit: nat,
    found: Seq<Model>,
)
    ensures
        redpackage_decoder::elements(p, inner, cursor, left, limit, found) matches Ok((m, e))
            ==> m is Array && m->Array_0.len() == found.len() + left && m->Array_0.subrange(
            0,
            found.len() as int,
        ) == found && e >= cursor && (left > 0 ==> cursor < e <= limit),
    decreases left,
{
    if left == 0 {
        assert(found.subrange(0, found.len() as int) =~= found);
    } else {
        lemma_elements_step(p, inner, cursor, left, limit, found);
        match read_at(p, inner, cursor, limit) {
            Err(_) => {},
            Ok((item, end)) => {
                let next = found.push(item);
                lemma_elements_front(p, inner, end, (left - 1) as nat, limit, next);
                match redpackage_decoder::elements(
                    p,
                    inner,
                    end,
                    (left - 1) as nat,
                    limit,
                    next,
                ) {
                    Ok((m, _)) => {
                        let items = m->Array_0;
                        assert forall|i: int| 0 <= i < found.len() implies items[i] == found[i] by {
                            assert(items.subrange(0, next.len() as int)[i] == next[i]);
                        }
                        assert(items.subrange(0, found.len() as int) =~= found);
                    },
                    Err(_) => {},
                }
            },
        }
    }
}

// ---------------------------------------------------------------------------
// Values
// ---------------------------------------------------------------------------

/// Whether a value that was written can be read up to a limit: nothing else
/// stands before it where nothing else stood before the limit.
pub open spec fn may_read(lr: nat, e: nat, at: nat, length: nat, lq: nat) -> bool {
    at + length <= lq && (e == lr ==> lq == at + length)
}

/// The elements of an array are written so that they are read back.
#[verifier::rlimit(40)]
proof fn lemma_kept_elements(
    sc: Scene,
    source: Source,
    state: State,
    q: Package,
    inner: Seq<char>,
    cursor: nat,
    lr: nat,
    lw: nat,
    xs: Seq<Model>,
    i: nat,
    path: Seq<nat>,
    x: Model,
    items: Seq<Model>,
    e: nat,
    places: Seq<(nat, nat)>,
    end: nat,
    bytes: Seq<u8>,
    at: nat,
    lq: nat,
    written: Seq<u8>,
    behind: nat,
    after: State,
)
    requires
        fits(sc, source, q),
        kept(sc, state),
        lr <= sc.package.bytes.len() <= usize::MAX,
        i <= xs.len() == items.len(),
        path.len() >= 1,
        lookup(sc.values, path) == Some(x),
        x == Model::Array(xs),
        shows(x, Model::Array(items), sc.flat, sc.base),
        avoids(Model::Array(items), sc.roots),
        redpackage_decoder::elements(
            sc.package,
            inner,
            cursor,
            (items.len() - i) as nat,
            lr,
            items.subrange(0, i as int),
        ) == Ok::<(Model, nat), Fault>((Model::Array(items), e)),
        redpackage_layout_laws::elements_in_order(
            sc.package,
            inner,
            cursor,
            (items.len() - i) as nat,
            lr,
        ),
        e <= lw <= lr,
        redpackage_writer::spots(
            sc.package,
            inner,
            cursor,
            (items.len() - i) as nat,
            lw,
            places.subrange(0, i as int),
        ) == Ok::<(Seq<(nat, nat)>, nat), Fault>((places, end)),
        i <= places.len(),
        redpackage_writer::written_items(
            source,
            state,
            inner,
            xs,
            i,
            path,
            places,
            end,
            bytes,
        ) == Ok::<(Seq<u8>, nat, State), Fault>((written, behind, after)),
        sequence::stands(q.bytes, at, written),
        may_read(lr, e, at, written.len(), lq),
    ensures
        kept(sc, after),
        end == e,
        behind == e,
        bytes.len() <= written.len(),
        i < xs.len() ==> bytes.len() < written.len(),
        sequence::stands(written, 0, bytes),
        redpackage_decoder::elements(
            q,
            inner,
            at + bytes.len(),
            (items.len() - i) as nat,
            lq,
            items.subrange(0, i as int),
        ) == Ok::<(Model, nat), Fault>((Model::Array(items), at + written.len())),
    decreases xs, 4nat, xs.len() - i,
{
    let p = sc.package;
    let left = (items.len() - i) as nat;
    let front = items.subrange(0, i as int);
    if i == items.len() {
        assert(bytes.subrange(0, bytes.len() as int) =~= bytes);
        assert(front =~= items);
    } else {
        lemma_elements_step(p, inner, cursor, left, lr, front);
        lemma_spots_step(p, inner, cursor, left, lw, places.subrange(0, i as int));
        let (m, next) = read_at(p, inner, cursor, lr)->Ok_0;
        lemma_elements_front(p, inner, next, (left - 1) as nat, lr, front.push(m));
        assert(items.subrange(0, (i + 1) as int)[i as int] == m);
        assert(front.push(m) =~= items.subrange(0, (i + 1) as int));
        lemma_nearer(p, inner, cursor, lr, lw, m, next);
        let last = redpackage_reader::value_limit(inner, cursor, lw);
        let found = places.subrange(0, i as int).push((cursor, last));
        lemma_spots_front(p, inner, next, (left - 1) as nat, lw, found);
        assert(places.subrange(0, (i + 1) as int)[i as int] == (cursor, last));
        assert(found =~= places.subrange(0, (i + 1) as int));
        let own = path.push(i);
        let (more, rest_behind, rest_state) = redpackage_writer::written_value(
            source,
            state,
            inner,
            xs[i as int],
            own,
            cursor,
            last,
        )->Ok_0;
        redpackage_state_laws::lemma_lookup(sc.values, path, i, x);
        redpackage_expansion_laws::lemma_avoids_item(items, i as int, sc.roots);
        lemma_items_grow(
            source,
            rest_state,
            inner,
            xs,
            i + 1,
            path,
            places,
            end,
            bytes + more,
        );
        let spot = at + bytes.len();
        assert(sequence::stands(written, 0, bytes + more));
        sequence::lemma_stands_split(written, 0, bytes, more);
        sequence::lemma_stands_within(q.bytes, at, written, bytes.len(), more);
        lemma_kept_value(
            sc,
            source,
            state,
            q,
            inner,
            cursor,
            lr,
            last,
            xs[i as int],
            own,
            m,
            next,
            spot,
            spot + more.len(),
            more,
            rest_behind,
            rest_state,
        );
        lemma_kept_elements(
            sc,
            source,
            rest_state,
            q,
            inner,
            next,
            lr,
            lw,
            xs,
            i + 1,
            path,
            x,
            items,
            e,
            places,
            end,
            bytes + more,
            at,
            lq,
            written,
            behind,
            after,
        );
        assert(next == lr ==> i + 1 == items.len());
        lemma_kept_value(
            sc,
            source,
            state,
            q,
            inner,
            cursor,
            lr,
            last,
            xs[i as int],
            own,
            m,
            next,
            spot,
            lq,
            more,
            rest_behind,
            rest_state,
        );
        lemma_elements_step(q, inner, spot, left, lq, front);
    }
}

/// What was written of an array stays in front.
proof fn lemma_items_grow(
    source: Source,
    state: State,
    inner: Seq<char>,
    xs: Seq<Model>,
    i: nat,
    path: Seq<nat>,
    places: Seq<(nat, nat)>,
    end: nat,
    bytes: Seq<u8>,
)
    ensures
        redpackage_writer::written_items(
            source,
            state,
            inner,
            xs,
            i,
            path,
            places,
            end,
            bytes,
        ) matches Ok((written, behind, _)) ==> sequence::stands(written, 0, bytes) && behind == end,
    decreases xs.len() - i,
{
    if i >= xs.len() {
        assert(bytes.subrange(0, bytes.len() as int) =~= bytes);
    } else if places.len() > 0 {
        let place = if i < places.len() {
            places[i as int]
        } else {
            places.last()
        };
        match redpackage_writer::written_value(
            source,
            state,
            inner,
            xs[i as int],
            path.push(i),
            place.0,
            place.1,
        ) {
            Err(_) => {},
            Ok((more, _, after)) => {
                lemma_items_grow(source, after, inner, xs, i + 1, path, places, end, bytes + more);
                match redpackage_writer::written_items(
                    source,
                    after,
                    inner,
                    xs,
                    i + 1,
                    path,
                    places,
                    end,
                    bytes + more,
                ) {
                    Ok((written, _, _)) => {
                        sequence::lemma_stands_split(written, 0, bytes, more);
                    },
                    Err(_) => {},
                }
            },
        }
    }
}

/// A value is written so that it is read back.
#[verifier::rlimit(40)]
pub proof fn lemma_kept_value(
    sc: Scene,
    source: Source,
    state: State,
    q: Package,
    t: Seq<char>,
    start: nat,
    lr: nat,
    lw: nat,
    x: Model,
    path: Seq<nat>,
    m: Model,
    e: nat,
    at: nat,
    lq: nat,
    written: Seq<u8>,
    behind: nat,
    after: State,
)
    requires
        fits(sc, source, q),
        kept(sc, state),
        lr <= sc.package.bytes.len() <= usize::MAX,
        path.len() >= 1,
        lookup(sc.values, path) == Some(x),
        shows(x, m, sc.flat, sc.base),
        avoids(m, sc.roots),
        read_at(sc.package, t, start, lr) == Ok::<(Model, nat), Fault>((m, e)),
        ordered_at(sc.package, t, start, lr),
        e <= lr,
        may_write(sc.package, t, lr, lw, e),
        redpackage_writer::written_value(source, state, t, x, path, start, lw) == Ok::<
            (Seq<u8>, nat, State),
            Fault,
        >((written, behind, after)),
        sequence::stands(q.bytes, at, written),
        may_read(lr, e, at, written.len(), lq),
    ensures
        kept(sc, after),
        e > start ==> written.len() > 0,
        lw >= e ==> behind >= e,
        read_at(q, t, at, lq) == Ok::<(Model, nat), Fault>((m, at + written.len())),
    decreases x, 3nat, 0nat,
{
    reveal(read_at);
    reveal(ordered_at);
    reveal(may_write);
    let p = sc.package;
    let last = redpackage_reader::value_limit(t, start, lr);
    redpackage_layout_laws::lemma_array_size(p.classes, t);
    match redpackage_reader::shape(p.classes, t) {
        Shape::Leaf => {
            let lastq = redpackage_reader::value_limit(t, at, lq);
            redpackage_value_laws::lemma_kept_leaf(
                sc,
                source,
                state,
                q,
                t,
                start,
                last,
                lw,
                x,
                path,
                m,
                e,
                at,
                lastq,
                written,
                behind,
                after,
            );
        },
        Shape::Broken => {},
        Shape::Array(inner) => {
            lemma_kept_array(
                sc,
                source,
                state,
                q,
                inner,
                start,
                lr,
                lw,
                x,
                path,
                m,
                e,
                at,
                lq,
                written,
                behind,
                after,
            );
        },
        Shape::Static(count, inner) => {
            lemma_kept_static(
                sc,
                source,
                state,
                q,
                count,
                inner,
                start,
                lr,
                lw,
                x,
                path,
                m,
                e,
                at,
                lq,
                written,
                behind,
                after,
            );
        },
        Shape::Class => {
            lemma_kept_nested(
                sc,
                source,
                state,
                q,
                t,
                start,
                lr,
                lw,
                x,
                path,
                m,
                e,
                at,
                lq,
                written,
                behind,
                after,
            );
        },
    }
}

/// A class in another value is written so that it is read back.
proof fn lemma_kept_nested(
    sc: Scene,
    source: Source,
    state: State,
    q: Package,
    t: Seq<char>,
    start: nat,
    lr: nat,
    lw: nat,
    x: Model,
    path: Seq<nat>,
    m: Model,
    e: nat,
    at: nat,
    lq: nat,
    written: Seq<u8>,
    behind: nat,
    after: State,
)
    requires
        fits(sc, source, q),
        kept(sc, state),
        lr <= sc.package.bytes.len() <= usize::MAX,
        path.len() >= 1,
        lookup(sc.values, path) == Some(x),
        shows(x, m, sc.flat, sc.base),
        avoids(m, sc.roots),
        redpackage_reader::shape(sc.package.classes, t) is Class,
        read_at(sc.package, t, start, lr) == Ok::<(Model, nat), Fault>((m, e)),
        ordered_at(sc.package, t, start, lr),
        e <= lr,
        may_write(sc.package, t, lr, lw, e),
        redpackage_writer::written_value(source, state, t, x, path, start, lw) == Ok::<
            (Seq<u8>, nat, State),
            Fault,
        >((written, behind, after)),
        sequence::stands(q.bytes, at, written),
        may_read(lr, e, at, written.len(), lq),
    ensures
        kept(sc, after),
        e > start ==> written.len() > 0,
        lw >= e ==> behind >= e,
        read_at(q, t, at, lq) == Ok::<(Model, nat), Fault>((m, at + written.len())),
    decreases x, 2nat, 1nat,
{
    reveal(read_at);
    reveal(ordered_at);
    reveal(may_write);
    let p = sc.package;
    let last = redpackage_reader::value_limit(t, start, lr);
    let lastq = redpackage_reader::value_limit(t, at, lq);
    let used = if red_types::type_size(t) is Some {
        e
    } else {
        lr
    };
    assert(redpackage_decoder::value_at(p, t, start, last) == redpackage_decoder::class_at(
        p,
        t,
        start,
        last,
    ));
    assert(redpackage_decoder::value_at(q, t, at, lastq) == redpackage_decoder::class_at(
        q,
        t,
        at,
        lastq,
    ));
    if red_types::type_size(t) is Some {
        redpackage_layout_laws::lemma_sized(p, t, start, last);
        redpackage_layout_laws::lemma_empty_class(p, t, start, last);
        redpackage_layout_laws::lemma_empty_class(p, t, start, e);
        redpackage_layout_laws::lemma_empty_class(p, t, start, lw);
    } else {
        lemma_class_nearer(p, t, start, used, lw, m, e);
    }
    lemma_kept_class(
        sc,
        source,
        state,
        q,
        t,
        start,
        used,
        e,
        x,
        path,
        m,
        e,
        at,
        lastq,
        written,
        after,
    );
}

/// A class ends where it did when it is read up to another limit.
proof fn lemma_class_nearer(
    p: Package,
    t: Seq<char>,
    start: nat,
    last: nat,
    lw: nat,
    m: Model,
    e: nat,
)
    requires
        last <= p.bytes.len() <= usize::MAX,
        redpackage_decoder::class_at(p, t, start, last) == Ok::<(Model, nat), Fault>((m, e)),
        redpackage_layout_laws::class_in_order(p, t, start, last),
        e <= last,
        e <= lw <= last || redpackage::number(p.bytes, start, 2) == Ok::<nat, Fault>(0),
    ensures
        redpackage_decoder::class_at(p, t, start, lw) == Ok::<(Model, nat), Fault>((m, e)),
{
    if e <= lw <= last {
        lemma_same_place(p, last);
        let v = Move { p, q: p, a: 0, b: 0, hi: last };
        redpackage_layout_laws::lemma_moved_class(v, t, start, last, lw, m, e);
    }
}

/// An array is written so that it is read back.
proof fn lemma_kept_array(
    sc: Scene,
    source: Source,
    state: State,
    q: Package,
    inner: Seq<char>,
    start: nat,
    lr: nat,
    lw: nat,
    x: Model,
    path: Seq<nat>,
    m: Model,
    e: nat,
    at: nat,
    lq: nat,
    written: Seq<u8>,
    behind: nat,
    after: State,
)
    requires
        fits(sc, source, q),
        kept(sc, state),
        lr <= sc.package.bytes.len() <= usize::MAX,
        path.len() >= 1,
        lookup(sc.values, path) == Some(x),
        shows(x, m, sc.flat, sc.base),
        avoids(m, sc.roots),
        ({
            let count = redpackage::number(sc.package.bytes, start, 4);
            count is Ok && redpackage_decoder::elements(
                sc.package,
                inner,
                start + 4,
                count->Ok_0,
                lr,
                Seq::empty(),
            ) == Ok::<(Model, nat), Fault>((m, e)) && redpackage_layout_laws::elements_in_order(
                sc.package,
                inner,
                start + 4,
                count->Ok_0,
                lr,
            )
        }),
        e <= lw <= lr,
        redpackage_writer::written_array(source, state, inner, x, path, start, lw) == Ok::<
            (Seq<u8>, nat, State),
            Fault,
        >((written, behind, after)),
        sequence::stands(q.bytes, at, written),
        may_read(lr, e, at, written.len(), lq),
    ensures
        kept(sc, after),
        written.len() > 0,
        behind == e,
        redpackage::number(q.bytes, at, 4) is Ok,
        redpackage_decoder::elements(
            q,
            inner,
            at + 4,
            redpackage::number(q.bytes, at, 4)->Ok_0,
            lq,
            Seq::empty(),
        ) == Ok::<(Model, nat), Fault>((m, at + written.len())),
    decreases x, 2nat, 1nat,
{
    let p = sc.package;
    let none = Seq::<Model>::empty();
    let count = redpackage::number(p.bytes, start, 4)->Ok_0;
    lemma_elements_front(p, inner, start + 4, count, lr, none);
    let items = m->Array_0;
    let xs = x->Array_0;
    let (places, end) = redpackage_writer::spots(
        p,
        inner,
        start + 4,
        count,
        lw,
        Seq::empty(),
    )->Ok_0;
    assert(items.subrange(0, 0) =~= none);
    assert(places.subrange(0, 0) =~= Seq::<(nat, nat)>::empty());
    let head = binary::le_bytes(xs.len(), 4);
    binary::lemma_le_bytes_len(xs.len(), 4);
    binary::lemma_byte_ranges();
    assert(decreases_to!(x => xs));
    lemma_kept_elements(
        sc,
        source,
        state,
        q,
        inner,
        start + 4,
        lr,
        lw,
        xs,
        0,
        path,
        x,
        items,
        e,
        places,
        end,
        head,
        at,
        lq,
        written,
        behind,
        after,
    );
    sequence::lemma_stands_within(q.bytes, at, written, 0, head);
    binary::lemma_number_stands(q.bytes, at, xs.len(), 4);
}

/// An array with its count in its type is written so that it is read back.
proof fn lemma_kept_static(
    sc: Scene,
    source: Source,
    state: State,
    q: Package,
    count: nat,
    inner: Seq<char>,
    start: nat,
    lr: nat,
    lw: nat,
    x: Model,
    path: Seq<nat>,
    m: Model,
    e: nat,
    at: nat,
    lq: nat,
    written: Seq<u8>,
    behind: nat,
    after: State,
)
    requires
        fits(sc, source, q),
        kept(sc, state),
        lr <= sc.package.bytes.len() <= usize::MAX,
        path.len() >= 1,
        lookup(sc.values, path) == Some(x),
        shows(x, m, sc.flat, sc.base),
        avoids(m, sc.roots),
        redpackage_decoder::elements(sc.package, inner, start, count, lr, Seq::empty()) == Ok::<
            (Model, nat),
            Fault,
        >((m, e)),
        redpackage_layout_laws::elements_in_order(sc.package, inner, start, count, lr),
        e <= lw <= lr,
        redpackage_writer::written_static(
            source,
            state,
            count,
            inner,
            x,
            path,
            start,
            lw,
        ) == Ok::<(Seq<u8>, nat, State), Fault>((written, behind, after)),
        sequence::stands(q.bytes, at, written),
        may_read(lr, e, at, written.len(), lq),
    ensures
        kept(sc, after),
        e > start ==> written.len() > 0,
        behind == e,
        redpackage_decoder::elements(q, inner, at, count, lq, Seq::empty()) == Ok::<
            (Model, nat),
            Fault,
        >((m, at + written.len())),
    decreases x, 2nat, 1nat,
{
    let p = sc.package;
    let none = Seq::<Model>::empty();
    lemma_elements_front(p, inner, start, count, lr, none);
    let items = m->Array_0;
    let xs = x->Array_0;
    let (places, end) = redpackage_writer::spots(p, inner, start, count, lw, Seq::empty())->Ok_0;
    assert(items.subrange(0, 0) =~= none);
    assert(places.subrange(0, 0) =~= Seq::<(nat, nat)>::empty());
    assert(decreases_to!(x => xs));
    lemma_kept_elements(
        sc,
        source,
        state,
        q,
        inner,
        start,
        lr,
        lw,
        xs,
        0,
        path,
        x,
        items,
        e,
        places,
        end,
        Seq::empty(),
        at,
        lq,
        written,
        behind,
        after,
    );
}

// ---------------------------------------------------------------------------
// Classes
// ---------------------------------------------------------------------------

/// A class is written so that it is read back.
#[verifier::rlimit(40)]
pub proof fn lemma_kept_class(
    sc: Scene,
    source: Source,
    state: State,
    q: Package,
    class: Seq<char>,
    start: nat,
    lr: nat,
    lc: nat,
    x: Model,
    path: Seq<nat>,
    m: Model,
    e: nat,
    at: nat,
    lq: nat,
    written: Seq<u8>,
    after: State,
)
    requires
        fits(sc, source, q),
        kept(sc, state),
        lr <= sc.package.bytes.len() <= usize::MAX,
        path.len() >= 1,
        lookup(sc.values, path) == Some(x),
        shows(x, m, sc.flat, sc.base),
        avoids(m, sc.roots),
        redpackage_decoder::class_at(sc.package, class, start, lr) == Ok::<(Model, nat), Fault>(
            (m, e),
        ),
        redpackage_layout_laws::class_in_order(sc.package, class, start, lr),
        e <= lr,
        lc == e || lc == lr,
        redpackage_writer::written_class(source, state, class, x, path, start, lc) == Ok::<
            (Seq<u8>, State),
            Fault,
        >((written, after)),
        sequence::stands(q.bytes, at, written),
        redpackage::number(sc.package.bytes, start, 2) == Ok::<nat, Fault>(0) || (may_read(
            lr,
            e,
            at,
            written.len(),
            lq,
        ) && (lc != e ==> lq == at + written.len())),
    ensures
        kept(sc, after),
        written.len() >= 2,
        redpackage_decoder::class_at(q, class, at, lq) is Ok,
        redpackage_decoder::class_at(q, class, at, lq)->Ok_0.0 == m,
        redpackage_decoder::class_at(q, class, at, lq)->Ok_0.1 <= at + written.len(),
        lc == e ==> redpackage_decoder::class_at(q, class, at, lq)->Ok_0.1 == at + written.len(),
    decreases x, 2nat, 0nat,
{
    let p = sc.package;
    let fields = redpackage_reader::fields_of(p.bytes, start)->Ok_0;
    let count = redpackage::number(p.bytes, start, 2)->Ok_0;
    redpackage_layout_laws::lemma_fields_front(p.bytes, start, start + 2, count, Seq::empty());
    redpackage_class_laws::law_class_read(
        source,
        state,
        class,
        x,
        path,
        start,
        lc,
        q.bytes,
        at,
    );
    let read = redpackage_reader::fields_of(q.bytes, at)->Ok_0;
    let object = redpackage_decoder::typed(class);
    let begun = start + 2 + fields.len() * 8;
    let none = Seq::<u8>::empty();
    lemma_object(p, class, fields, start, lr, begun, m, e);
    redpackage_layout_laws::lemma_record_places(p, class, fields, 0, start, lr, object, begun);
    lemma_next_field(
        source,
        state,
        class,
        x,
        path,
        fields,
        0,
        start,
        lc,
        none,
        none,
        written,
        after,
        q.bytes,
        at,
        read,
    );
    lemma_kept_fields(
        sc,
        source,
        state,
        q,
        class,
        fields,
        0,
        start,
        lr,
        lc,
        object,
        begun,
        x,
        path,
        m,
        e,
        none,
        none,
        at,
        lq,
        read,
        at + 2 + read.len() * 8,
        written,
        after,
    );
}

/// The object of a class is no handle.
proof fn lemma_object(
    p: Package,
    class: Seq<char>,
    fields: Seq<(nat, nat, nat)>,
    start: nat,
    limit: nat,
    begun: nat,
    m: Model,
    e: nat,
)
    requires
        redpackage_decoder::record(
            p,
            class,
            fields,
            0,
            start,
            limit,
            redpackage_decoder::typed(class),
            begun,
        ) == Ok::<(Model, nat), Fault>((m, e)),
    ensures
        m is Object,
        entries::rising(m->Object_0),
        entries::rising(redpackage_decoder::typed(class)),
        !crate::redpackage_document::is_handle(m->Object_0),
{
    let none = Seq::<(Seq<char>, Model)>::empty();
    reveal_strlit("$type");
    reveal_strlit("$package_handle");
    assert("$type"@.len() == 5 && "$package_handle"@.len() == 15);
    entries::law_put_rising(none, "$type"@, Model::Text(class));
    entries::law_find_put(none, "$type"@, Model::Text(class));
    lemma_record_keeps(
        p,
        class,
        fields,
        0,
        start,
        limit,
        redpackage_decoder::typed(class),
        begun,
        m,
        e,
        "$type"@,
    );
    redpackage_expansion_laws::lemma_no_handle(m->Object_0, "$type"@);
}

/// A field of a class is written so that it is read back.
proof fn lemma_kept_field(
    sc: Scene,
    source: Source,
    state: State,
    q: Package,
    class: Seq<char>,
    name: Seq<char>,
    t: Seq<char>,
    place: nat,
    end: nat,
    lw: nat,
    start: nat,
    lr: nat,
    x: Model,
    path: Seq<nat>,
    m: Model,
    e: nat,
    at: nat,
    endq: nat,
    startq: nat,
    lq: nat,
    written: Seq<u8>,
    behind: nat,
    after: State,
)
    requires
        fits(sc, source, q),
        kept(sc, state),
        end <= lr <= sc.package.bytes.len() <= usize::MAX,
        start <= place,
        path.len() >= 1,
        lookup(sc.values, path) == Some(x),
        shows(x, m, sc.flat, sc.base),
        avoids(m, sc.roots),
        redpackage_layout_laws::field_read(
            sc.package,
            class,
            name,
            t,
            place,
            end,
            start,
            lr,
        ) == Ok::<(Model, nat), Fault>((m, e)),
        redpackage_layout_laws::field_ordered(sc.package, class, name, t, place, end, start, lr),
        e <= lw <= end,
        redpackage_class_laws::written_member(
            source,
            state,
            class,
            name,
            t,
            x,
            path,
            place,
            lw,
        ) == Ok::<(Seq<u8>, nat, State), Fault>((written, behind, after)),
        sequence::stands(q.bytes, at, written),
        may_read(end, e, at, written.len(), endq),
        startq < at,
        endq <= lq,
    ensures
        kept(sc, after),
        behind >= e,
        redpackage_layout_laws::field_read(q, class, name, t, at, endq, startq, lq) == Ok::<
            (Model, nat),
            Fault,
        >((m, at + written.len())),
    decreases x, 3nat, 1nat,
{
    reveal(redpackage_layout_laws::field_read);
    reveal(redpackage_layout_laws::field_ordered);
    let p = sc.package;
    if redpackage_layout_laws::is_effect(p, class, name) {
        redpackage_effect_laws::lemma_effect_plain(p, name, place, end, m, e);
        redpackage_expansion_laws::lemma_plain(x, m, sc.flat, sc.base);
        redpackage_effect_laws::lemma_kept_effect(
            sc,
            source,
            state,
            q,
            name,
            place,
            end,
            m,
            e,
            at,
            endq,
            written,
            behind,
            after,
        );
    } else {
        lemma_field_as_value(p, class, name, t, place, end, start, lr, m, e);
        assert(may_write(p, t, end, lw, e)) by {
            reveal(may_write);
        }
        lemma_kept_value(
            sc,
            source,
            state,
            q,
            t,
            place,
            end,
            lw,
            x,
            path,
            m,
            e,
            at,
            endq,
            written,
            behind,
            after,
        );
        lemma_value_as_field(q, class, name, t, at, endq, startq, lq);
    }
}

proof fn lemma_field_as_value(
    p: Package,
    class: Seq<char>,
    name: Seq<char>,
    t: Seq<char>,
    place: nat,
    end: nat,
    start: nat,
    limit: nat,
    m: Model,
    e: nat,
)
    requires
        !redpackage_layout_laws::is_effect(p, class, name),
        redpackage_decoder::field_value(p, class, name, t, place, end, start, limit) == Ok::<
            (Model, nat),
            Fault,
        >((m, e)),
        redpackage_layout_laws::field_in_order(p, class, name, t, place, end, start, limit),
    ensures
        read_at(p, t, place, end) == Ok::<(Model, nat), Fault>((m, e)),
        ordered_at(p, t, place, end),
{
    reveal(read_at);
    reveal(ordered_at);
}

proof fn lemma_value_as_field(
    p: Package,
    class: Seq<char>,
    name: Seq<char>,
    t: Seq<char>,
    place: nat,
    end: nat,
    start: nat,
    limit: nat,
)
    requires
        !redpackage_layout_laws::is_effect(p, class, name),
        start < place,
        start < p.bytes.len(),
    ensures
        redpackage_decoder::field_value(p, class, name, t, place, end, start, limit) == read_at(
            p,
            t,
            place,
            end,
        ),
{
    reveal(read_at);
}

/// The fields of a class from index `i` on are written so that they are read
/// back.
#[verifier::rlimit(60)]
proof fn lemma_kept_fields(
    sc: Scene,
    source: Source,
    state: State,
    q: Package,
    class: Seq<char>,
    fields: Seq<(nat, nat, nat)>,
    i: nat,
    start: nat,
    lr: nat,
    lc: nat,
    object: Seq<(Seq<char>, Model)>,
    consumed: nat,
    x: Model,
    path: Seq<nat>,
    m: Model,
    e: nat,
    descriptors: Seq<u8>,
    body: Seq<u8>,
    at: nat,
    lq: nat,
    read: Seq<(nat, nat, nat)>,
    consumed2: nat,
    written: Seq<u8>,
    after: State,
)
    requires
        fits(sc, source, q),
        kept(sc, state),
        lr <= sc.package.bytes.len() <= usize::MAX,
        i <= fields.len(),
        path.len() >= 1,
        lookup(sc.values, path) == Some(x),
        shows(x, m, sc.flat, sc.base),
        avoids(m, sc.roots),
        m is Object,
        entries::rising(m->Object_0),
        !crate::redpackage_document::is_handle(m->Object_0),
        entries::rising(object),
        redpackage_layout_laws::fields_in_order(sc.package, fields, start, lr),
        i < fields.len() ==> fields[i as int].2 >= start,
        redpackage_decoder::record(
            sc.package,
            class,
            fields,
            i,
            start,
            lr,
            object,
            consumed,
        ) == Ok::<(Model, nat), Fault>((m, e)),
        redpackage_layout_laws::record_in_order(sc.package, class, fields, i, start, lr),
        e <= lr,
        lc == e || lc == lr,
        descriptors.len() == 8 * i,
        redpackage_writer::written_fields(
            source,
            state,
            class,
            x,
            path,
            fields,
            i,
            start,
            lc,
            descriptors,
            body,
        ) == Ok::<(Seq<u8>, State), Fault>((written, after)),
        sequence::stands(q.bytes, at, written),
        redpackage_reader::fields_of(q.bytes, at) == Ok::<Seq<(nat, nat, nat)>, Fault>(read),
        read.len() == fields.len(),
        forall|k: int|
            0 <= k < fields.len() ==> (#[trigger] read[k]).0 == fields[k].0 && read[k].1
                == fields[k].1,
        fields.len() == 0 || (may_read(lr, e, at, written.len(), lq) && (lc != e ==> lq == at
            + written.len())),
    ensures
        kept(sc, after),
        redpackage_decoder::record(q, class, read, i, at, lq, object, consumed2) is Ok,
        ({
            let (m2, e2) = redpackage_decoder::record(
                q,
                class,
                read,
                i,
                at,
                lq,
                object,
                consumed2,
            )->Ok_0;
            &&& m2 == m
            &&& i == fields.len() ==> e2 == consumed2
            &&& i < fields.len() ==> e2 <= at + written.len()
            &&& i < fields.len() && lc == e ==> e2 == at + written.len()
        }),
    decreases x, 1nat, fields.len() - i,
{
    if i < fields.len() {
        let p = sc.package;
        redpackage_layout_laws::lemma_record_places(
            p,
            class,
            fields,
            i,
            start,
            lr,
            object,
            consumed,
        );
        redpackage_layout_laws::lemma_record_step(
            p,
            class,
            fields,
            i,
            start,
            lr,
            object,
            consumed,
        );
        let place = fields[i as int].2;
        let end = redpackage_reader::field_limit(fields, i, lr);
        let name = p.names[fields[i as int].0 as int];
        let t = p.names[fields[i as int].1 as int];
        let (inner, ends) = redpackage_layout_laws::field_read(
            p,
            class,
            name,
            t,
            place,
            end,
            start,
            lr,
        )->Ok_0;
        let next = entries::put(object, name, inner);
        entries::law_put_rising(object, name, inner);
        entries::law_find_put(object, name, inner);
        lemma_record_keeps(p, class, fields, i + 1, start, lr, next, ends, m, e, name);
        assert(entries::find(m->Object_0, name) == Some(inner));
        lemma_shown_field(sc, x, m, name, inner);
        let k = redpackage_writer::member_position(x, name)->0;
        let shown = x->Object_0[k as int].1;
        redpackage_writer::lemma_member(x, name);
        redpackage_state_laws::lemma_lookup(sc.values, path, k, x);
        let lw = redpackage_reader::field_limit(fields, i, lc);
        let own = redpackage_class_laws::written_member(
            source,
            state,
            class,
            name,
            t,
            shown,
            path.push(k),
            place,
            lw,
        );
        assert(own is Ok);
        let (more, behind, done) = own->Ok_0;
        let padding = if behind < lw {
            p.bytes.subrange(behind as int, lw as int)
        } else {
            Seq::empty()
        };
        let offset = 2 + 8 * fields.len() + body.len();
        let described = descriptors + binary::le_bytes(fields[i as int].0, 2) + binary::le_bytes(
            fields[i as int].1,
            2,
        ) + binary::le_bytes(offset, 4);
        binary::lemma_le_bytes_len(fields[i as int].0, 2);
        binary::lemma_le_bytes_len(fields[i as int].1, 2);
        binary::lemma_le_bytes_len(offset, 4);
        let longer = body + more + padding;
        assert(redpackage_writer::written_fields(
            source,
            done,
            class,
            x,
            path,
            fields,
            i + 1,
            start,
            lc,
            described,
            longer,
        ) == Ok::<(Seq<u8>, State), Fault>((written, after)));
        lemma_next_field(
            source,
            state,
            class,
            x,
            path,
            fields,
            i,
            start,
            lc,
            descriptors,
            body,
            written,
            after,
            q.bytes,
            at,
            read,
        );
        lemma_next_field(
            source,
            done,
            class,
            x,
            path,
            fields,
            i + 1,
            start,
            lc,
            described,
            longer,
            written,
            after,
            q.bytes,
            at,
            read,
        );
        let spot = at + 2 + 8 * fields.len() + body.len();
        sequence::lemma_stands_split(q.bytes, at + 2 + 8 * fields.len(), body + more, padding);
        sequence::lemma_stands_split(q.bytes, at + 2 + 8 * fields.len(), body, more);
        assert(i + 1 == fields.len() ==> e == ends);
        assert(ends <= lw <= end);
        lemma_kept_field(
            sc,
            source,
            state,
            q,
            class,
            name,
            t,
            place,
            end,
            lw,
            start,
            lr,
            shown,
            path.push(k),
            inner,
            ends,
            spot,
            spot + more.len(),
            at,
            spot + more.len(),
            more,
            behind,
            done,
        );
        let endq = redpackage_reader::field_limit(read, i, lq);
        assert(may_read(end, ends, spot, more.len(), endq));
        lemma_kept_field(
            sc,
            source,
            state,
            q,
            class,
            name,
            t,
            place,
            end,
            lw,
            start,
            lr,
            shown,
            path.push(k),
            inner,
            ends,
            spot,
            endq,
            at,
            lq,
            more,
            behind,
            done,
        );
        redpackage_layout_laws::lemma_record_step(
            q,
            class,
            read,
            i,
            at,
            lq,
            object,
            consumed2,
        );
        lemma_kept_fields(
            sc,
            source,
            done,
            q,
            class,
            fields,
            i + 1,
            start,
            lr,
            lc,
            next,
            ends,
            x,
            path,
            m,
            e,
            described,
            longer,
            at,
            lq,
            read,
            spot + more.len(),
            written,
            after,
        );
    }
}

} // verus!
