//! The chunks of a package that was put together are found again where they
//! were written.

use crate::redpackage;
use crate::redpackage::{Fault, LayoutModel};
use crate::redpackage_build;
use crate::redpackage_laws;
use crate::redpackage_pools;
use crate::redpackage_pools::{Source, State};
use crate::redpackage_writer;
use crate::sequence;
use vstd::prelude::*;

verus! {

/// Whether bytes hold chunk `k` at a place, with the states of the pools before
/// and after it was written: as the template has it where no value takes its
/// place, and else as the value gives it.
pub open spec fn holds_chunk(
    bytes: Seq<u8>,
    at: nat,
    source: Source,
    chunks: Seq<(nat, nat)>,
    template: nat,
    k: nat,
    step: (State, State),
) -> bool {
    match redpackage_build::template_class(source.package, chunks, template) {
        Err(_) => false,
        Ok((class, start, end)) => match redpackage_pools::chunk_of(step.0.chunks, k) {
            None => step.1 == step.0 && start <= end <= source.package.bytes.len()
                && sequence::stands(
                bytes,
                at,
                source.package.bytes.subrange(start as int, end as int),
            ),
            Some((path, data)) => {
                let written = redpackage_writer::written_class(
                    source,
                    step.0,
                    class,
                    data,
                    path,
                    start,
                    end,
                );
                written is Ok && step.1 == written->Ok_0.1 && sequence::stands(
                    bytes,
                    at,
                    written->Ok_0.0,
                )
            },
        },
    }
}

/// Whether each step starts from the state that the step before leads to.
pub open spec fn chained(steps: Seq<(State, State)>, first: State, last: State) -> bool {
    &&& steps.len() == 0 ==> first == last
    &&& steps.len() > 0 ==> steps[0].0 == first && steps.last().1 == last
    &&& forall|k: int| 0 < k < steps.len() ==> (#[trigger] steps[k]).0 == steps[k - 1].1
}

/// Whether bytes hold all chunks, each at its offset from a start.
pub open spec fn holds_chunks(
    bytes: Seq<u8>,
    start: nat,
    offsets: Seq<nat>,
    source: Source,
    chunks: Seq<(nat, nat)>,
    templates: Seq<nat>,
    steps: Seq<(State, State)>,
) -> bool {
    &&& steps.len() == templates.len()
    &&& offsets.len() == templates.len()
    &&& forall|k: int|
        0 <= k < templates.len() ==> holds_chunk(
            bytes,
            start + #[trigger] offsets[k],
            source,
            chunks,
            templates[k],
            k as nat,
            steps[k],
        )
}

proof fn lemma_chunk_within(
    bytes: Seq<u8>,
    start: nat,
    data: Seq<u8>,
    at: nat,
    source: Source,
    chunks: Seq<(nat, nat)>,
    template: nat,
    k: nat,
    step: (State, State),
)
    requires
        sequence::stands(bytes, start, data),
        holds_chunk(data, at, source, chunks, template, k, step),
    ensures
        holds_chunk(bytes, start + at, source, chunks, template, k, step),
        at <= data.len(),
{
    let (class, from, to) = redpackage_build::template_class(
        source.package,
        chunks,
        template,
    )->Ok_0;
    match redpackage_pools::chunk_of(step.0.chunks, k) {
        None => {
            sequence::lemma_stands_within(
                bytes,
                start,
                data,
                at,
                source.package.bytes.subrange(from as int, to as int),
            );
        },
        Some((path, value)) => {
            let written = redpackage_writer::written_class(
                source,
                step.0,
                class,
                value,
                path,
                from,
                to,
            );
            sequence::lemma_stands_within(bytes, start, data, at, written->Ok_0.0);
        },
    }
}

proof fn lemma_grown(before: Seq<u8>, more: Seq<u8>, whole: Seq<u8>)
    requires
        before.len() + more.len() <= whole.len(),
        whole.subrange(0, (before.len() + more.len()) as int) == before + more,
    ensures
        whole.subrange(0, before.len() as int) == before,
        sequence::stands(whole, before.len(), more),
{
    assert(sequence::stands(whole, 0, before + more));
    sequence::lemma_stands_split(whole, 0, before, more);
}

/// What chunk `i` adds to the bytes, and the state behind it.
spec fn chunk_step(
    source: Source,
    chunks: Seq<(nat, nat)>,
    templates: Seq<nat>,
    state: State,
    i: nat,
) -> (Seq<u8>, State) {
    let (class, start, end) = redpackage_build::template_class(
        source.package,
        chunks,
        templates[i as int],
    )->Ok_0;
    match redpackage_pools::chunk_of(state.chunks, i) {
        None => (source.package.bytes.subrange(start as int, end as int), state),
        Some((path, data)) => redpackage_writer::written_class(
            source,
            state,
            class,
            data,
            path,
            start,
            end,
        )->Ok_0,
    }
}

/// The first chunk from index `i` on is written, and the others behind it.
proof fn lemma_step(
    source: Source,
    chunks: Seq<(nat, nat)>,
    templates: Seq<nat>,
    state: State,
    i: nat,
    offsets: Seq<nat>,
    bytes: Seq<u8>,
    whole: Seq<u8>,
)
    requires
        i < templates.len(),
        redpackage_build::rebuilt(source, chunks, templates, state, i, offsets, bytes) is Ok,
    ensures
        ({
            let (more, after) = chunk_step(source, chunks, templates, state, i);
            &&& redpackage_build::rebuilt(source, chunks, templates, state, i, offsets, bytes)
                == redpackage_build::rebuilt(
                source,
                chunks,
                templates,
                after,
                i + 1,
                offsets.push(bytes.len()),
                bytes + more,
            )
            &&& sequence::stands(whole, bytes.len(), more) ==> holds_chunk(
                whole,
                bytes.len(),
                source,
                chunks,
                templates[i as int],
                i,
                (state, after),
            )
        }),
{
}

proof fn take_chunks(
    source: Source,
    chunks: Seq<(nat, nat)>,
    templates: Seq<nat>,
    state: State,
    i: nat,
    offsets: Seq<nat>,
    bytes: Seq<u8>,
    all: Seq<nat>,
    whole: Seq<u8>,
    last: State,
) -> (steps: Seq<(State, State)>)
    requires
        i <= templates.len(),
        offsets.len() == i,
        redpackage_build::rebuilt(source, chunks, templates, state, i, offsets, bytes) == Ok::<
            (Seq<nat>, Seq<u8>, State),
            Fault,
        >((all, whole, last)),
    ensures
        all.len() == templates.len(),
        all.subrange(0, i as int) == offsets,
        bytes.len() <= whole.len(),
        whole.subrange(0, bytes.len() as int) == bytes,
        steps.len() == templates.len(),
        i == templates.len() ==> state == last,
        i < templates.len() ==> steps[i as int].0 == state && steps.last().1 == last,
        forall|k: int| i < k < steps.len() ==> (#[trigger] steps[k]).0 == steps[k - 1].1,
        forall|k: int|
            i <= k < templates.len() ==> holds_chunk(
                whole,
                #[trigger] all[k],
                source,
                chunks,
                templates[k],
                k as nat,
                steps[k],
            ),
    decreases templates.len() - i,
{
    if i == templates.len() {
        assert(offsets.subrange(0, i as int) =~= offsets);
        assert(bytes.subrange(0, bytes.len() as int) =~= bytes);
        Seq::new(templates.len(), |k: int| (state, state))
    } else {
        let (more, after) = chunk_step(source, chunks, templates, state, i);
        lemma_step(source, chunks, templates, state, i, offsets, bytes, whole);
        let rest = take_chunks(
            source,
            chunks,
            templates,
            after,
            i + 1,
            offsets.push(bytes.len()),
            bytes + more,
            all,
            whole,
            last,
        );
        lemma_grown(bytes, more, whole);
        assert(all.subrange(0, (i + 1) as int)[i as int] == all[i as int]);
        assert(all.subrange(0, i as int) =~= offsets) by {
            assert forall|k: int| 0 <= k < i implies all[k] == offsets[k] by {
                assert(all.subrange(0, (i + 1) as int)[k] == offsets.push(bytes.len())[k]);
            }
        }
        let steps = rest.update(i as int, (state, after));
        assert forall|k: int| i < k < steps.len() implies (#[trigger] steps[k]).0 == steps[k
            - 1].1 by {
            assert(steps[k] == rest[k]);
            if k > i + 1 {
                assert(steps[k - 1] == rest[k - 1]);
            }
        }
        steps
    }
}

/// The chunks of a package that was put together are read back: one for each
/// that was written, in order, with the type of its template, and where the
/// table says it is, it is as it was written.
pub proof fn law_chunks_read(
    template: Seq<u8>,
    layout: LayoutModel,
    source: Source,
    found: State,
    templates: Seq<nat>,
    offsets: Seq<nat>,
    data: Seq<u8>,
    state: State,
    bytes: Seq<u8>,
)
    requires
        redpackage::layout_of(template, source.hashed) == Ok::<LayoutModel, Fault>(layout),
        redpackage_build::rebuilt(
            source,
            layout.chunks,
            templates,
            found,
            0,
            Seq::empty(),
            Seq::empty(),
        ) == Ok::<(Seq<nat>, Seq<u8>, State), Fault>((offsets, data, state)),
        redpackage_build::built(
            template,
            layout,
            state,
            templates,
            offsets,
            data,
            source.hashed,
        ) == Ok::<Seq<u8>, Fault>(bytes),
        redpackage_laws::storable(state.imports, source.hashed),
        bytes.len() <= usize::MAX,
    ensures
        redpackage::layout_of(bytes, source.hashed) is Ok,
        redpackage::layout_of(bytes, source.hashed)->Ok_0.chunks
            == redpackage_laws::placed_chunks(
            layout.chunks,
            templates,
            offsets,
            (bytes.len() - data.len()) as nat,
        ),
        exists|steps: Seq<(State, State)>|
            chained(steps, found, state) && #[trigger] holds_chunks(
                bytes,
                (bytes.len() - data.len()) as nat,
                offsets,
                source,
                layout.chunks,
                templates,
                steps,
            ),
{
    let steps = take_chunks(
        source,
        layout.chunks,
        templates,
        found,
        0,
        Seq::empty(),
        Seq::empty(),
        offsets,
        data,
        state,
    );
    assert(sequence::stands(data, 0, data)) by {
        assert(data.subrange(0, data.len() as int) =~= data);
    }
    assert forall|k: int| 0 <= k < offsets.len() implies #[trigger] offsets[k] <= data.len() by {
        lemma_chunk_within(
            data,
            0,
            data,
            offsets[k],
            source,
            layout.chunks,
            templates[k],
            k as nat,
            steps[k],
        );
    }
    redpackage_laws::law_read_built(
        template,
        layout,
        state,
        templates,
        offsets,
        data,
        source.hashed,
        bytes,
    );
    let start = (bytes.len() - data.len()) as nat;
    assert forall|k: int| 0 <= k < templates.len() implies holds_chunk(
        bytes,
        start + #[trigger] offsets[k],
        source,
        layout.chunks,
        templates[k],
        k as nat,
        steps[k],
    ) by {
        lemma_chunk_within(
            bytes,
            start,
            data,
            offsets[k],
            source,
            layout.chunks,
            templates[k],
            k as nat,
            steps[k],
        );
    }
    assert(holds_chunks(bytes, start, offsets, source, layout.chunks, templates, steps));
}

} // verus!
