//! A package that is rebuilt from its own document has the same document.

use crate::entries;
use crate::redpackage;
use crate::redpackage::{Fault, ImportModel, LayoutModel, PackageSettings, PathModel};
use crate::redpackage_build;
use crate::redpackage_decoder;
use crate::redpackage_document;
use crate::redpackage_expansion_laws;
use crate::redpackage_kept_laws;
use crate::redpackage_kept_laws::fits;
use crate::redpackage_laws;
use crate::redpackage_layout_laws;
use crate::redpackage_layout_laws::{alike, Move};
use crate::redpackage_pools;
use crate::redpackage_pools::{Source, State};
use crate::redpackage_reader;
use crate::redpackage_reader::Package;
use crate::redpackage_state_laws;
use crate::redpackage_state_laws::{kept, Scene};
use crate::redpackage_value_laws;
use crate::redpackage_writer;
use crate::redpackage_written_laws;
use crate::sequence;
use crate::value;
use crate::value::Model;
use vstd::prelude::*;

verus! {

// ---------------------------------------------------------------------------
// Chunks
// ---------------------------------------------------------------------------

/// The class of a chunk.
pub open spec fn chunk_class(p: Package, chunks: Seq<(nat, nat)>, k: nat) -> Seq<char> {
    p.names[chunks[k as int].0 as int]
}

/// What is read of a chunk.
pub open spec fn chunk_read(
    p: Package,
    chunks: Seq<(nat, nat)>,
    k: nat,
) -> redpackage_reader::Reading {
    redpackage_decoder::class_at(
        p,
        chunk_class(p, chunks, k),
        chunks[k as int].1,
        redpackage_document::chunk_end(chunks, k, p.bytes.len()),
    )
}

/// Whether a chunk is read as a value, and ends before the next.
pub open spec fn chunk_holds(p: Package, chunks: Seq<(nat, nat)>, k: nat, m: Model) -> bool {
    &&& chunks[k as int].0 < p.names.len()
    &&& redpackage_document::chunk_end(chunks, k, p.bytes.len()) + 64 <= usize::MAX
    &&& chunk_read(p, chunks, k) is Ok
    &&& chunk_read(p, chunks, k)->Ok_0.0 == m
    &&& chunk_read(p, chunks, k)->Ok_0.1 <= redpackage_document::chunk_end(
        chunks,
        k,
        p.bytes.len(),
    )
}

/// The chunks of a package are read one by one.
proof fn lemma_chunk_values(p: Package, chunks: Seq<(nat, nat)>, i: nat, found: Seq<Model>)
    requires
        i <= chunks.len(),
        found.len() == i,
    ensures
        redpackage_document::chunk_values(p, chunks, i, found) matches Ok(flat) ==> flat.len()
            == chunks.len() && flat.subrange(0, i as int) == found && forall|k: int|
            i <= k < chunks.len() ==> chunk_holds(p, chunks, k as nat, #[trigger] flat[k]),
    decreases chunks.len() - i,
{
    if i == chunks.len() {
        assert(found.subrange(0, i as int) =~= found);
    } else if redpackage_document::chunk_values(p, chunks, i, found) is Ok {
        let (m, consumed) = chunk_read(p, chunks, i)->Ok_0;
        let next = found.push(m);
        lemma_chunk_values(p, chunks, i + 1, next);
        let flat = redpackage_document::chunk_values(p, chunks, i, found)->Ok_0;
        assert(flat.subrange(0, next.len() as int)[i as int] == m);
        assert forall|k: int| 0 <= k < i implies flat[k] == found[k] by {
            assert(flat.subrange(0, next.len() as int)[k] == next[k]);
        }
        assert(flat.subrange(0, i as int) =~= found);
    }
}

/// Chunks that are read one by one are the chunks of a package.
proof fn lemma_chunk_values_of(
    p: Package,
    chunks: Seq<(nat, nat)>,
    i: nat,
    flat: Seq<Model>,
)
    requires
        i <= chunks.len() == flat.len(),
        forall|k: int| 0 <= k < chunks.len() ==> chunk_holds(p, chunks, k as nat, #[trigger] flat[k]),
    ensures
        redpackage_document::chunk_values(p, chunks, i, flat.subrange(0, i as int)) == Ok::<
            Seq<Model>,
            Fault,
        >(flat),
    decreases chunks.len() - i,
{
    if i == chunks.len() {
        assert(flat.subrange(0, i as int) =~= flat);
    } else {
        assert(chunk_holds(p, chunks, i, flat[i as int]));
        assert(flat.subrange(0, i as int).push(flat[i as int]) =~= flat.subrange(
            0,
            (i + 1) as int,
        ));
        lemma_chunk_values_of(p, chunks, i + 1, flat);
    }
}

/// The chunks of a template are the chunks of its document.
proof fn lemma_template_chunks(
    p: Package,
    chunks: Seq<(nat, nat)>,
    i: nat,
    flat: Seq<Model>,
)
    requires
        i <= chunks.len() == flat.len(),
        forall|k: int| 0 <= k < chunks.len() ==> chunk_holds(p, chunks, k as nat, #[trigger] flat[k]),
    ensures
        redpackage_build::template_chunks(p, chunks, i, flat.subrange(0, i as int)) == Ok::<
            Seq<Model>,
            Fault,
        >(flat),
    decreases chunks.len() - i,
{
    if i == chunks.len() {
        assert(flat.subrange(0, i as int) =~= flat);
    } else {
        assert(chunk_holds(p, chunks, i, flat[i as int]));
        assert(flat.subrange(0, i as int).push(flat[i as int]) =~= flat.subrange(
            0,
            (i + 1) as int,
        ));
        lemma_template_chunks(p, chunks, i + 1, flat);
    }
}

/// A chunk ends within its package.
proof fn lemma_chunk_end(p: Package, chunks: Seq<(nat, nat)>, flat: Seq<Model>, k: nat)
    requires
        chunks.len() == flat.len(),
        forall|k: int| 0 <= k < chunks.len() ==> chunk_holds(p, chunks, k as nat, #[trigger] flat[k]),
        k < chunks.len(),
    ensures
        redpackage_document::chunk_end(chunks, k, p.bytes.len()) <= p.bytes.len(),
{
    if k + 1 < chunks.len() {
        assert(chunk_holds(p, chunks, k + 1, flat[(k + 1) as int]));
    }
}

// ---------------------------------------------------------------------------
// What is written
// ---------------------------------------------------------------------------

/// Whether a package and its chunks are those of a scene.
spec fn set(sc: Scene, chunks: Seq<(nat, nat)>) -> bool {
    &&& chunks.len() == sc.flat.len()
    &&& sc.package.bytes.len() <= usize::MAX
    &&& sc.roots == redpackage_document::roots(sc.flat, sc.flat.len())
    &&& forall|k: int|
        0 <= k < chunks.len() ==> chunk_holds(sc.package, chunks, k as nat, #[trigger] sc.flat[k])
    &&& forall|k: int|
        0 <= k < chunks.len() ==> redpackage_layout_laws::class_in_order(
            sc.package,
            chunk_class(sc.package, chunks, k as nat),
            (#[trigger] chunks[k]).1,
            redpackage_document::chunk_end(chunks, k as nat, sc.package.bytes.len()),
        )
}

/// A chunk that a value takes the place of is written so that it is read back.
proof fn lemma_kept_chunk(
    sc: Scene,
    source: Source,
    state: State,
    q: Package,
    chunks: Seq<(nat, nat)>,
    k: nat,
    path: Seq<nat>,
    data: Model,
    at: nat,
    written: Seq<u8>,
    after: State,
)
    requires
        set(sc, chunks),
        fits(sc, source, q),
        kept(sc, state),
        k < chunks.len(),
        redpackage_pools::chunk_of(state.chunks, k) == Some((path, data)),
        redpackage_writer::written_class(
            source,
            state,
            chunk_class(sc.package, chunks, k),
            data,
            path,
            chunks[k as int].1,
            redpackage_document::chunk_end(chunks, k, sc.package.bytes.len()),
        ) == Ok::<(Seq<u8>, State), Fault>((written, after)),
        sequence::stands(q.bytes, at, written),
    ensures
        kept(sc, after),
        ({
            let read = redpackage_decoder::class_at(
                q,
                chunk_class(sc.package, chunks, k),
                at,
                at + written.len(),
            );
            read is Ok && read->Ok_0.0 == sc.flat[k as int] && read->Ok_0.1 <= at + written.len()
        }),
{
    let p = sc.package;
    let start = chunks[k as int].1;
    let end = redpackage_document::chunk_end(chunks, k, p.bytes.len());
    let class = chunk_class(p, chunks, k);
    redpackage_state_laws::lemma_chunk_of(state.chunks, k);
    let i = choose|i: int|
        0 <= i < state.chunks.len() && #[trigger] state.chunks[i] == (k, path, data);
    assert(redpackage_state_laws::chunk_kept(sc, state.chunks[i]));
    assert(chunk_holds(p, chunks, k, sc.flat[k as int]));
    assert(redpackage_layout_laws::class_in_order(p, class, chunks[k as int].1, end));
    lemma_chunk_end(p, chunks, sc.flat, k);
    redpackage_expansion_laws::lemma_chunk_avoids(sc.flat, k as int);
    let (m, e) = chunk_read(p, chunks, k)->Ok_0;
    redpackage_written_laws::lemma_kept_class(
        sc,
        source,
        state,
        q,
        class,
        start,
        end,
        end,
        data,
        path,
        m,
        e,
        at,
        at + written.len(),
        written,
        after,
    );
}

/// Finding what the chunks need collects nothing but what the package holds.
proof fn lemma_discovered(
    sc: Scene,
    source: Source,
    chunks: Seq<(nat, nat)>,
    state: State,
    index: nat,
    found: State,
)
    requires
        set(sc, chunks),
        source.package == sc.package,
        redpackage_kept_laws::base64_kept(sc.package.bytes),
        redpackage_kept_laws::imports_shown(sc.package.imports, source.hashed),
        kept(sc, state),
        redpackage_build::discovered(source, chunks, state, index) == Ok::<State, Fault>(found),
    ensures
        kept(sc, found),
    decreases usize::MAX - index,
{
    if index < state.templates.len() && index < usize::MAX {
        match redpackage_pools::chunk_of(state.chunks, index) {
            None => {
                lemma_discovered(sc, source, chunks, state, index + 1, found);
            },
            Some((path, data)) => {
                assert(state.templates[index as int] == index);
                assert(chunk_holds(sc.package, chunks, index, sc.flat[index as int]));
                let (written, after) = redpackage_writer::written_class(
                    source,
                    state,
                    chunk_class(sc.package, chunks, index),
                    data,
                    path,
                    chunks[index as int].1,
                    redpackage_document::chunk_end(chunks, index, sc.package.bytes.len()),
                )->Ok_0;
                let q = Package { bytes: written, ..sc.package };
                assert(written.subrange(0, written.len() as int) =~= written);
                lemma_kept_chunk(
                    sc,
                    source,
                    state,
                    q,
                    chunks,
                    index,
                    path,
                    data,
                    0,
                    written,
                    after,
                );
                lemma_discovered(sc, source, chunks, after, index + 1, found);
            },
        }
    }
}

/// Where the chunk behind an offset starts, or all chunks end.
spec fn next_offset(offsets: Seq<nat>, k: nat, size: nat) -> nat {
    if k + 1 < offsets.len() {
        offsets[k as int + 1]
    } else {
        size
    }
}

/// Whether a chunk stands at its offset behind a start.
#[verifier::opaque]
spec fn stands_there(
    sc: Scene,
    q: Package,
    chunks: Seq<(nat, nat)>,
    offsets: Seq<nat>,
    size: nat,
    start: nat,
    k: nat,
) -> bool {
    let end = next_offset(offsets, k, size);
    let read = redpackage_decoder::class_at(
        q,
        chunk_class(sc.package, chunks, k),
        start + offsets[k as int],
        start + end,
    );
    &&& offsets[k as int] <= end <= size
    &&& read is Ok
    &&& read->Ok_0.0 == sc.flat[k as int]
    &&& read->Ok_0.1 <= start + end
}

/// What was written of the chunks stays in front.
proof fn lemma_rebuilt_front(
    source: Source,
    chunks: Seq<(nat, nat)>,
    templates: Seq<nat>,
    state: State,
    i: nat,
    offsets: Seq<nat>,
    bytes: Seq<u8>,
)
    requires
        offsets.len() == i,
        i <= templates.len(),
    ensures
        redpackage_build::rebuilt(source, chunks, templates, state, i, offsets, bytes) matches Ok(
            (all, whole, _),
        ) ==> all.len() == templates.len() && sequence::stands(all, 0, offsets)
            && sequence::stands(whole, 0, bytes),
    decreases templates.len() - i,
{
    if i == templates.len() {
        assert(offsets.subrange(0, i as int) =~= offsets);
        assert(bytes.subrange(0, bytes.len() as int) =~= bytes);
    } else if redpackage_build::rebuilt(
        source,
        chunks,
        templates,
        state,
        i,
        offsets,
        bytes,
    ) is Ok {
        lemma_step(source, chunks, templates, state, i, offsets, bytes);
        let (more, after) = chunk_step(source, chunks, templates, state, i);
        lemma_rebuilt_front(
            source,
            chunks,
            templates,
            after,
            i + 1,
            offsets.push(bytes.len()),
            bytes + more,
        );
        let (all, whole, _) = redpackage_build::rebuilt(
            source,
            chunks,
            templates,
            state,
            i,
            offsets,
            bytes,
        )->Ok_0;
        assert(offsets.push(bytes.len()) =~= offsets + seq![bytes.len()]);
        sequence::lemma_stands_split(all, 0, offsets, seq![bytes.len()]);
        sequence::lemma_stands_split(whole, 0, bytes, more);
    }
}

/// What a chunk adds to the bytes, and the state behind it.
#[verifier::opaque]
spec fn chunk_step(
    source: Source,
    chunks: Seq<(nat, nat)>,
    templates: Seq<nat>,
    state: State,
    i: nat,
) -> (Seq<u8>, State) {
    let (class, start, end) = redpackage_build::template_class(
        source.package,
        chunks,
        templates[i as int],
    )->Ok_0;
    match redpackage_pools::chunk_of(state.chunks, i) {
        None => (source.package.bytes.subrange(start as int, end as int), state),
        Some((path, data)) => redpackage_writer::written_class(
            source,
            state,
            class,
            data,
            path,
            start,
            end,
        )->Ok_0,
    }
}

/// The first chunk from index `i` on is written before the others.
proof fn lemma_step(
    source: Source,
    chunks: Seq<(nat, nat)>,
    templates: Seq<nat>,
    state: State,
    i: nat,
    offsets: Seq<nat>,
    bytes: Seq<u8>,
)
    requires
        i < templates.len(),
        redpackage_build::rebuilt(source, chunks, templates, state, i, offsets, bytes) is Ok,
    ensures
        ({
            let (more, after) = chunk_step(source, chunks, templates, state, i);
            redpackage_build::rebuilt(source, chunks, templates, state, i, offsets, bytes)
                == redpackage_build::rebuilt(
                source,
                chunks,
                templates,
                after,
                i + 1,
                offsets.push(bytes.len()),
                bytes + more,
            )
        }),
{
    reveal(chunk_step);
}

/// What was written ends where the next chunk starts.
proof fn lemma_next_offset(
    source: Source,
    chunks: Seq<(nat, nat)>,
    templates: Seq<nat>,
    state: State,
    i: nat,
    offsets: Seq<nat>,
    bytes: Seq<u8>,
    all: Seq<nat>,
    whole: Seq<u8>,
    last: State,
)
    requires
        0 < i <= templates.len(),
        offsets.len() == i,
        redpackage_build::rebuilt(source, chunks, templates, state, i, offsets, bytes) == Ok::<
            (Seq<nat>, Seq<u8>, State),
            Fault,
        >((all, whole, last)),
    ensures
        next_offset(all, (i - 1) as nat, whole.len()) == bytes.len(),
        bytes.len() <= whole.len(),
        all.len() == templates.len(),
{
    lemma_rebuilt_front(source, chunks, templates, state, i, offsets, bytes);
    if i < templates.len() {
        lemma_step(source, chunks, templates, state, i, offsets, bytes);
        let (more, after) = chunk_step(source, chunks, templates, state, i);
        let next = offsets.push(bytes.len());
        lemma_rebuilt_front(source, chunks, templates, after, i + 1, next, bytes + more);
        sequence::lemma_stands_index(all, 0, next, i as int);
    }
}

/// Whether a package can be rebuilt.
#[verifier::opaque]
spec fn ready(sc: Scene, source: Source, q: Package, chunks: Seq<(nat, nat)>) -> bool {
    set(sc, chunks) && fits(sc, source, q)
}

/// Whether nothing was collected but what the package holds.
#[verifier::opaque]
spec fn state_kept(sc: Scene, state: State) -> bool {
    kept(sc, state)
}

/// A chunk is written so that it is read back.
proof fn lemma_chunk_step(
    sc: Scene,
    source: Source,
    q: Package,
    chunks: Seq<(nat, nat)>,
    templates: Seq<nat>,
    state: State,
    i: nat,
    offsets: Seq<nat>,
    bytes: Seq<u8>,
    at: nat,
)
    requires
        ready(sc, source, q, chunks),
        state_kept(sc, state),
        templates == state.templates,
        i < templates.len(),
        redpackage_build::rebuilt(source, chunks, templates, state, i, offsets, bytes) is Ok,
        sequence::stands(q.bytes, at, chunk_step(source, chunks, templates, state, i).0),
    ensures
        ({
            let (more, after) = chunk_step(source, chunks, templates, state, i);
            let read = redpackage_decoder::class_at(
                q,
                chunk_class(sc.package, chunks, i),
                at,
                at + more.len(),
            );
            &&& state_kept(sc, after)
            &&& after.templates == templates
            &&& read is Ok
            &&& read->Ok_0.0 == sc.flat[i as int]
            &&& read->Ok_0.1 <= at + more.len()
        }),
{
    reveal(chunk_step);
    reveal(ready);
    reveal(state_kept);
    let p = sc.package;
    assert(templates[i as int] == i);
    assert(chunk_holds(p, chunks, i, sc.flat[i as int]));
    lemma_chunk_end(p, chunks, sc.flat, i);
    let (more, after) = chunk_step(source, chunks, templates, state, i);
    let class = chunk_class(p, chunks, i);
    let from = chunks[i as int].1;
    let to = redpackage_document::chunk_end(chunks, i, p.bytes.len());
    match redpackage_pools::chunk_of(state.chunks, i) {
        None => {
            redpackage_value_laws::lemma_moves(p, q, from, at, to);
            let v = Move { p, q, a: from, b: at, hi: to };
            let (m, e) = chunk_read(p, chunks, i)->Ok_0;
            assert(redpackage_layout_laws::class_in_order(p, class, chunks[i as int].1, to));
            redpackage_layout_laws::lemma_moved_class(v, class, from, to, at + more.len(), m, e);
        },
        Some((path, data)) => {
            lemma_kept_chunk(sc, source, state, q, chunks, i, path, data, at, more, after);
        },
    }
}

/// The chunks are written so that they are read back.
#[verifier::spinoff_prover]
#[verifier::rlimit(80)]
proof fn lemma_rebuilt(
    sc: Scene,
    source: Source,
    q: Package,
    chunks: Seq<(nat, nat)>,
    templates: Seq<nat>,
    state: State,
    i: nat,
    offsets: Seq<nat>,
    bytes: Seq<u8>,
    all: Seq<nat>,
    whole: Seq<u8>,
    last: State,
    start: nat,
)
    requires
        ready(sc, source, q, chunks),
        state_kept(sc, state),
        templates == state.templates,
        i <= templates.len(),
        offsets.len() == i,
        redpackage_build::rebuilt(source, chunks, templates, state, i, offsets, bytes) == Ok::<
            (Seq<nat>, Seq<u8>, State),
            Fault,
        >((all, whole, last)),
        sequence::stands(q.bytes, start, whole),
    ensures
        state_kept(sc, last),
        all.len() == templates.len(),
        forall|k: nat|
            i <= k < templates.len() ==> #[trigger] stands_there(
                sc,
                q,
                chunks,
                all,
                whole.len(),
                start,
                k,
            ),
    decreases templates.len() - i,
{
    if i < templates.len() {
        lemma_step(source, chunks, templates, state, i, offsets, bytes);
        let (more, after) = chunk_step(source, chunks, templates, state, i);
        let next = offsets.push(bytes.len());
        lemma_rebuilt_front(source, chunks, templates, after, i + 1, next, bytes + more);
        sequence::lemma_stands_index(all, 0, next, i as int);
        sequence::lemma_stands_split(whole, 0, bytes, more);
        sequence::lemma_stands_within(q.bytes, start, whole, bytes.len(), more);
        lemma_chunk_step(
            sc,
            source,
            q,
            chunks,
            templates,
            state,
            i,
            offsets,
            bytes,
            start + bytes.len(),
        );
        lemma_next_offset(
            source,
            chunks,
            templates,
            after,
            i + 1,
            next,
            bytes + more,
            all,
            whole,
            last,
        );
        lemma_rebuilt(
            sc,
            source,
            q,
            chunks,
            templates,
            after,
            i + 1,
            next,
            bytes + more,
            all,
            whole,
            last,
            start,
        );
        assert(stands_there(sc, q, chunks, all, whole.len(), start, i)) by {
            reveal(stands_there);
        }
    } else {
        lemma_rebuilt_front(source, chunks, templates, state, i, offsets, bytes);
    }
}

// ---------------------------------------------------------------------------
// Imports and the head
// ---------------------------------------------------------------------------

proof fn lemma_text_imports(imports: Seq<ImportModel>, i: nat, found: Seq<(Seq<char>, bool, nat)>)
    requires
        forall|k: int|
            0 <= k < found.len() ==> redpackage_state_laws::import_kept(
                imports,
                #[trigger] found[k],
            ),
    ensures
        redpackage_build::text_imports(imports, i, found) matches Ok(known) ==> forall|k: int|
            0 <= k < known.len() ==> redpackage_state_laws::import_kept(
                imports,
                #[trigger] known[k],
            ),
    decreases imports.len() - i,
{
    if i < imports.len() {
        match imports[i as int].path {
            PathModel::Hash(_) => {
                lemma_text_imports(imports, i + 1, found);
            },
            PathModel::Text(path) => {
                let next = found.push((path, imports[i as int].soft, i));
                assert forall|k: int| 0 <= k < next.len() implies redpackage_state_laws::import_kept(
                    imports,
                    #[trigger] next[k],
                ) by {
                    if k < found.len() {
                        assert(next[k] == found[k]);
                    }
                }
                lemma_text_imports(imports, i + 1, next);
            },
        }
    }
}

/// Numbers that stand in another package are read alike.
proof fn lemma_longs(v: Move, at: nat, left: nat, found: Seq<nat>)
    requires
        redpackage_layout_laws::moves(v),
        v.a <= at,
        at + 8 * left <= v.hi,
    ensures
        redpackage_document::longs_from(
            v.q.bytes,
            redpackage_layout_laws::to(v, at),
            left,
            found,
        ) == redpackage_document::longs_from(v.p.bytes, at, left, found),
    decreases left,
{
    if left > 0 {
        redpackage_layout_laws::lemma_moved_number(v, at, 8);
        let n = redpackage::number(v.p.bytes, at, 8)->Ok_0;
        lemma_longs(v, at + 8, (left - 1) as nat, found.push(n));
    }
}

/// The head of a rebuilt package is that of its template.
proof fn lemma_head(p: Package, q: Package, layout: LayoutModel, read: LayoutModel, hashed: bool)
    requires
        alike(p, q),
        redpackage::layout_of(p.bytes, hashed) == Ok::<LayoutModel, Fault>(layout),
        redpackage::layout_of(q.bytes, hashed) == Ok::<LayoutModel, Fault>(read),
        read.version == layout.version,
        read.sections == layout.sections,
        redpackage::number(q.bytes, 4, 4) is Ok,
        layout.header_size + 4 <= layout.base <= p.bytes.len(),
        sequence::stands(
            q.bytes,
            layout.header_size,
            p.bytes.subrange(layout.header_size as int, layout.base as int),
        ),
        redpackage_document::head(p.bytes) is Ok,
    ensures
        redpackage_document::head(q.bytes) == redpackage_document::head(p.bytes),
{
    let at = layout.header_size;
    redpackage_value_laws::lemma_moves(p, q, at, at, layout.base);
    let v = Move { p, q, a: at, b: at, hi: layout.base };
    redpackage_layout_laws::lemma_moved_number(v, at, 2);
    redpackage_layout_laws::lemma_moved_number(v, at + 2, 2);
    let count = redpackage::number(p.bytes, at + 2, 2)->Ok_0;
    lemma_longs(v, at + 4, count, Seq::empty());
}

// ---------------------------------------------------------------------------
// The law
// ---------------------------------------------------------------------------

/// Whether a package lies in order: in each class the values stand behind the
/// table of the fields and no name comes twice, a class of a fixed size has no
/// fields, and the names of bit fields can be told apart in a list.
pub open spec fn in_order(
    bytes: Seq<u8>,
    classes: Seq<(Seq<char>, ())>,
    settings: PackageSettings,
) -> bool {
    let layout = redpackage::layout_of(bytes, settings.imports_as_hash)->Ok_0;
    let p = redpackage_document::package(bytes, layout, classes);
    forall|k: int|
        0 <= k < layout.chunks.len() ==> redpackage_layout_laws::class_in_order(
            p,
            chunk_class(p, layout.chunks, k as nat),
            (#[trigger] layout.chunks[k]).1,
            redpackage_document::chunk_end(layout.chunks, k as nat, bytes.len()),
        )
}

/// The scene of a package and its document.
spec fn scene_of(
    template: Seq<u8>,
    layout: LayoutModel,
    classes: Seq<(Seq<char>, ())>,
    settings: PackageSettings,
    flat: Seq<Model>,
    values: Seq<Model>,
) -> Scene {
    Scene {
        package: redpackage_document::package(template, layout, classes),
        flat,
        base: settings.handle_id_base as nat,
        roots: redpackage_document::roots(flat, flat.len()),
        values,
    }
}

/// The values of the roots are those of the document.
proof fn lemma_rooted(sc: Scene, k: int)
    requires
        sc.roots == redpackage_document::roots(sc.flat, sc.flat.len()),
        sc.values.len() == sc.roots.len(),
        0 <= k < sc.roots.len(),
        redpackage_expansion_laws::shows(
            sc.values[k],
            redpackage_document::chosen(sc.flat, sc.roots)[k],
            sc.flat,
            sc.base,
        ),
    ensures
        redpackage_state_laws::chunk_kept(
            sc,
            redpackage_build::rooted(sc.roots, sc.values)[k],
        ),
{
    redpackage_expansion_laws::lemma_roots_bound(sc.flat, sc.flat.len());
    let c = redpackage_build::rooted(sc.roots, sc.values)[k];
    assert(c == (sc.roots[k], seq![k as nat], sc.values[k]));
    assert(sc.roots[k] < sc.flat.len());
    assert(redpackage_document::chosen(sc.flat, sc.roots)[k] == sc.flat[sc.roots[k] as int]);
}

/// A package that a state was begun for is rebuilt so that it is read back.
proof fn lemma_replaced(
    sc: Scene,
    template: Seq<u8>,
    layout: LayoutModel,
    hashed: bool,
    bytes: Seq<u8>,
)
    requires
        set(sc, layout.chunks),
        sc.package.bytes == template,
        sc.package.names == layout.names,
        sc.package.imports == layout.imports,
        sc.package.version == layout.version,
        sc.package.unknown1 == layout.unknown1,
        sc.values.len() == sc.roots.len(),
        forall|k: int|
            0 <= k < sc.roots.len() ==> redpackage_state_laws::chunk_kept(
                sc,
                #[trigger] redpackage_build::rooted(sc.roots, sc.values)[k],
            ),
        redpackage::layout_of(template, hashed) == Ok::<LayoutModel, Fault>(layout),
        redpackage_kept_laws::base64_kept(template),
        redpackage_kept_laws::imports_shown(layout.imports, hashed),
        redpackage_build::replaced(
            template,
            layout,
            sc.package,
            sc.roots,
            sc.values,
            hashed,
        ) == Ok::<Seq<u8>, Fault>(bytes),
        bytes.len() + 64 <= usize::MAX,
        redpackage_document::head(template) is Ok,
    ensures
        redpackage_document::head(bytes) == redpackage_document::head(template),
        redpackage::layout_of(bytes, hashed) is Ok,
        ({
            let read = redpackage::layout_of(bytes, hashed)->Ok_0;
            let q = redpackage_document::package(bytes, read, sc.package.classes);
            redpackage_document::chunk_values(q, read.chunks, 0, Seq::empty()) == Ok::<
                Seq<Model>,
                Fault,
            >(sc.flat)
        }),
{
    let none = Seq::<(Seq<char>, bool, nat)>::empty();
    let known = redpackage_build::text_imports(layout.imports, 0, none)->Ok_0;
    let class_templates = redpackage_build::chunk_classes(
        sc.package,
        layout.chunks,
        0,
        Seq::empty(),
    )->Ok_0;
    let state = State {
        names: layout.names,
        imports: layout.imports,
        known,
        chunks: redpackage_build::rooted(sc.roots, sc.values),
        templates: Seq::new(layout.chunks.len(), |i: int| i as nat),
        ids: Seq::empty(),
        claimed: sc.roots,
    };
    let source = Source { package: sc.package, class_templates, hashed, discovering: true };
    lemma_text_imports(layout.imports, 0, none);
    assert(state.templates =~= Seq::new(sc.flat.len(), |i: int| i as nat));
    assert(kept(sc, state)) by {
        assert forall|i: int| 0 <= i < state.claimed.len() implies sc.roots.contains(
            #[trigger] state.claimed[i],
        ) by {
            assert(sc.roots[i] == state.claimed[i]);
        }
    }
    let found = redpackage_build::discovered(source, layout.chunks, state, 0)->Ok_0;
    lemma_discovered(sc, source, layout.chunks, state, 0, found);
    let writing = Source { discovering: false, ..source };
    let (offsets, data, done) = redpackage_build::rebuilt(
        writing,
        layout.chunks,
        found.templates,
        found,
        0,
        Seq::empty(),
        Seq::empty(),
    )->Ok_0;
    lemma_written(
        sc,
        writing,
        template,
        layout,
        found,
        offsets,
        data,
        done,
        bytes,
    );
}

/// The chunks that were written are read back.
proof fn lemma_written(
    sc: Scene,
    source: Source,
    template: Seq<u8>,
    layout: LayoutModel,
    found: State,
    offsets: Seq<nat>,
    data: Seq<u8>,
    done: State,
    bytes: Seq<u8>,
)
    requires
        set(sc, layout.chunks),
        source.package == sc.package,
        sc.package.bytes == template,
        sc.package.names == layout.names,
        sc.package.imports == layout.imports,
        sc.package.version == layout.version,
        sc.package.unknown1 == layout.unknown1,
        kept(sc, found),
        redpackage::layout_of(template, source.hashed) == Ok::<LayoutModel, Fault>(layout),
        redpackage_kept_laws::base64_kept(template),
        redpackage_kept_laws::imports_shown(layout.imports, source.hashed),
        redpackage_build::rebuilt(
            source,
            layout.chunks,
            found.templates,
            found,
            0,
            Seq::empty(),
            Seq::empty(),
        ) == Ok::<(Seq<nat>, Seq<u8>, State), Fault>((offsets, data, done)),
        redpackage_build::built(
            template,
            layout,
            done,
            found.templates,
            offsets,
            data,
            source.hashed,
        ) == Ok::<Seq<u8>, Fault>(bytes),
        bytes.len() + 64 <= usize::MAX,
        redpackage_document::head(template) is Ok,
    ensures
        redpackage_document::head(bytes) == redpackage_document::head(template),
        redpackage::layout_of(bytes, source.hashed) is Ok,
        ({
            let read = redpackage::layout_of(bytes, source.hashed)->Ok_0;
            let q = redpackage_document::package(bytes, read, sc.package.classes);
            redpackage_document::chunk_values(q, read.chunks, 0, Seq::empty()) == Ok::<
                Seq<Model>,
                Fault,
            >(sc.flat)
        }),
{
    let hashed = source.hashed;
    let start = (bytes.len() - data.len()) as nat;
    let q = Package { bytes, ..sc.package };
    redpackage_laws::lemma_data_stands(
        template,
        layout,
        done,
        found.templates,
        offsets,
        data,
        hashed,
        bytes,
    );
    reveal(ready);
    reveal(state_kept);
    lemma_rebuilt(
        sc,
        source,
        q,
        layout.chunks,
        found.templates,
        found,
        0,
        Seq::empty(),
        Seq::empty(),
        offsets,
        data,
        done,
        start,
    );
    assert forall|k: int| 0 <= k < offsets.len() implies #[trigger] offsets[k] <= data.len() by {
        reveal(stands_there);
        assert(stands_there(sc, q, layout.chunks, offsets, data.len(), start, k as nat));
    }
    assert forall|k: int| 0 <= k < done.imports.len() implies hashed || (#[trigger]
    done.imports[k]).path is Text by {
        assert(redpackage_kept_laws::import_shown(layout.imports[k], hashed));
    }
    redpackage_laws::law_read_built(
        template,
        layout,
        done,
        found.templates,
        offsets,
        data,
        hashed,
        bytes,
    );
    let read = redpackage::layout_of(bytes, hashed)->Ok_0;
    assert(read.imports =~= layout.imports) by {
        assert forall|k: int| 0 <= k < layout.imports.len() implies redpackage_laws::stored(
            #[trigger] layout.imports[k],
            hashed,
        ) == layout.imports[k] by {
            assert(redpackage_kept_laws::import_shown(layout.imports[k], hashed));
        }
    }
    assert(redpackage_document::package(bytes, read, sc.package.classes) == q);
    lemma_head(sc.package, q, layout, read, hashed);
    let flat = sc.flat;
    assert forall|k: int| 0 <= k < read.chunks.len() implies chunk_holds(
        q,
        read.chunks,
        k as nat,
        #[trigger] flat[k],
    ) by {
        reveal(stands_there);
        assert(stands_there(sc, q, layout.chunks, offsets, data.len(), start, k as nat));
        assert(chunk_holds(sc.package, layout.chunks, k as nat, flat[k]));
        assert(found.templates[k] == k);
        assert(read.chunks[k] == (layout.chunks[k].0, start + offsets[k]));
        if k + 1 < read.chunks.len() {
            assert(read.chunks[k + 1].1 == start + offsets[k + 1]);
        }
    }
    lemma_chunk_values_of(q, read.chunks, 0, flat);
    assert(flat.subrange(0, 0) =~= Seq::<Model>::empty());
}

/// A package that is rebuilt from its own document, with itself as the template,
/// has the same document. The package is in order: no class has two fields with
/// one name, the table of a class stands in the class, a class that is named like a
/// type of a fixed size has no fields, and the names in a bit field are not empty
/// and hold no comma with a space behind it. No import is shown like none, and
/// base64 is taken to give back what it was made from.
pub proof fn law_rebuilt(
    template: Seq<u8>,
    data: Model,
    classes: Seq<(Seq<char>, ())>,
    settings: PackageSettings,
    bytes: Seq<u8>,
)
    requires
        redpackage_document::decoded(template, classes, settings) == Ok::<Model, Fault>(data),
        redpackage_build::encoded(template, data, classes, settings) == Ok::<Seq<u8>, Fault>(
            bytes,
        ),
        bytes.len() + 64 <= usize::MAX,
        in_order(template, classes, settings),
        redpackage_kept_laws::imports_shown(
            redpackage::layout_of(template, settings.imports_as_hash)->Ok_0.imports,
            settings.imports_as_hash,
        ),
        redpackage_kept_laws::base64_kept(template),
    ensures
        redpackage_document::decoded(bytes, classes, settings) == Ok::<Model, Fault>(data),
{
    let hashed = settings.imports_as_hash;
    let layout = redpackage::layout_of(template, hashed)->Ok_0;
    let p = redpackage_document::package(template, layout, classes);
    let none = Seq::<Model>::empty();
    let flat = redpackage_document::chunk_values(p, layout.chunks, 0, none)->Ok_0;
    lemma_chunk_values(p, layout.chunks, 0, none);
    let (version, sections, cruid_index, cruids) = redpackage_document::head(template)->Ok_0;
    let roots = redpackage_document::roots(flat, flat.len());
    let chosen = redpackage_document::chosen(flat, roots);
    let visited = Seq::new(flat.len(), |i: int| false);
    let base = settings.handle_id_base as nat;
    let values = redpackage_document::expanded_items(
        chosen,
        flat,
        visited,
        base,
        flat.len(),
    )->Ok_0.0;
    redpackage_expansion_laws::lemma_expanded_items(chosen, flat, visited, base, flat.len());
    lemma_document(version, sections, cruid_index, cruids, flat, settings, data, values);
    lemma_template_chunks(p, layout.chunks, 0, flat);
    assert(flat.subrange(0, 0) =~= none);
    let sc = scene_of(template, layout, classes, settings, flat, values);
    assert forall|k: int| 0 <= k < sc.roots.len() implies redpackage_state_laws::chunk_kept(
        sc,
        #[trigger] redpackage_build::rooted(sc.roots, sc.values)[k],
    ) by {
        assert(redpackage_expansion_laws::shows(values[k], chosen[k], flat, base));
        lemma_rooted(sc, k);
    }
    lemma_replaced(sc, template, layout, hashed, bytes);
}

/// The chunks of a document are the expanded roots.
proof fn lemma_document(
    version: nat,
    sections: nat,
    cruid_index: int,
    cruids: Seq<nat>,
    flat: Seq<Model>,
    settings: PackageSettings,
    data: Model,
    values: Seq<Model>,
)
    requires
        redpackage_document::document(
            version,
            sections,
            cruid_index,
            cruids,
            flat,
            settings,
        ) == Ok::<Model, Fault>(data),
        ({
            let shown = redpackage_document::expanded_items(
                redpackage_document::chosen(flat, redpackage_document::roots(flat, flat.len())),
                flat,
                Seq::new(flat.len(), |i: int| false),
                settings.handle_id_base as nat,
                flat.len(),
            );
            shown is Ok && shown->Ok_0.0 == values
        }),
    ensures
        value::member(data, "Chunks"@) == Some(Model::Array(values)),
{
    let e0 = Seq::<(Seq<char>, Model)>::empty();
    let a = value::integer(version as int);
    let b = value::integer(sections as int);
    let c = value::integer(cruid_index);
    let d = Model::Object(redpackage_document::number_dict(cruids, values.len()));
    let e1 = entries::put(e0, "Version"@, a);
    let e2 = entries::put(e1, "Sections"@, b);
    let e3 = entries::put(e2, "CruidIndex"@, c);
    let e4 = entries::put(e3, "CruidDict"@, d);
    entries::law_put_rising(e0, "Version"@, a);
    entries::law_put_rising(e1, "Sections"@, b);
    entries::law_put_rising(e2, "CruidIndex"@, c);
    entries::law_put_rising(e3, "CruidDict"@, d);
    entries::law_find_put(e4, "Chunks"@, Model::Array(values));
}

} // verus!
