//! What the document of a package holds.

use crate::codec_leaf_laws;
use crate::codec_leaf_laws::{eight, two, whole, with_sign};
use crate::entries;
use crate::number_text;
use crate::object_laws;
use crate::object_laws::{has_fields, said};
use crate::redpackage::{Fault, PackageSettings};
use crate::redpackage_decoder;
use crate::redpackage_document;
use crate::redpackage_reader::Package;
use crate::redpackage_stored_laws;
use crate::value;
use vstd::prelude::*;

verus! {

// ---------------------------------------------------------------------------
// Heads
// ---------------------------------------------------------------------------

proof fn lemma_longs(b: Seq<u8>, at: nat, left: nat, found: Seq<nat>)
    requires
        redpackage_document::longs_from(b, at + 8 * found.len(), left, found) is Ok,
        forall|i: nat| i < found.len() ==> #[trigger] found[i as int] == eight(b, at + 8 * i),
    ensures
        ({
            let all = redpackage_document::longs_from(
                b,
                at + 8 * found.len(),
                left,
                found,
            )->Ok_0;
            &&& all.len() == found.len() + left
            &&& forall|i: nat| i < all.len() ==> #[trigger] all[i as int] == eight(b, at + 8 * i)
        }),
    decreases left,
{
    if left > 0 {
        let spot = at + 8 * found.len();
        codec_leaf_laws::lemma_numbers(b, spot);
        let more = found.push(eight(b, spot));
        assert forall|i: nat| i < more.len() implies #[trigger] more[i as int] == eight(
            b,
            at + 8 * i,
        ) by {
            if i < found.len() {
                assert(more[i as int] == found[i as int]);
            }
        }
        lemma_longs(b, at, (left - 1) as nat, more);
    }
}

/// Behind the header of a package stand the index of its root identifier, the number of
/// identifiers, and each of them in eight bytes. A package has a version from two to four
/// and six or seven sections.
pub proof fn law_head_read(b: Seq<u8>)
    requires
        redpackage_document::head(b) is Ok,
    ensures
        ({
            let (version, sections, index, cruids) = redpackage_document::head(b)->Ok_0;
            let at: nat = if two(b, 2) == 7 {
                32
            } else {
                24
            };
            &&& version == b[0]
            &&& 2 <= version <= 4
            &&& sections == two(b, 2)
            &&& sections == 6 || sections == 7
            &&& index == with_sign(two(b, at), 0x8000)
            &&& cruids.len() == two(b, at + 2)
            &&& forall|i: nat|
                i < cruids.len() ==> #[trigger] cruids[i as int] == eight(b, at + 4 + 8 * i)
        }),
{
    let at: nat = if two(b, 2) == 7 {
        32
    } else {
        24
    };
    codec_leaf_laws::lemma_numbers(b, 2);
    codec_leaf_laws::lemma_numbers(b, at);
    codec_leaf_laws::lemma_numbers(b, at + 2);
    lemma_longs(b, at + 4, two(b, at + 2), Seq::empty());
}

// ---------------------------------------------------------------------------
// Chunks
// ---------------------------------------------------------------------------

proof fn lemma_chunks(
    p: Package,
    chunks: Seq<(nat, nat)>,
    i: nat,
    found: Seq<value::Model>,
    k: nat,
)
    requires
        i == found.len(),
        i <= chunks.len(),
        k < chunks.len(),
        redpackage_document::chunk_values(p, chunks, i, found) is Ok,
    ensures
        ({
            let all = redpackage_document::chunk_values(p, chunks, i, found)->Ok_0;
            let end = if k + 1 < chunks.len() {
                chunks[k as int + 1].1
            } else {
                p.bytes.len()
            };
            &&& all.len() == chunks.len()
            &&& k < i ==> all[k as int] == found[k as int]
            &&& k >= i ==> chunks[k as int].0 < p.names.len() && (redpackage_decoder::class_at(
                p,
                p.names[chunks[k as int].0 as int],
                chunks[k as int].1,
                end,
            ) matches Ok((m, consumed)) && m == all[k as int] && consumed <= end)
        }),
    decreases chunks.len() - i,
{
    if i < chunks.len() {
        let start = chunks[i as int].1;
        let end = redpackage_document::chunk_end(chunks, i, p.bytes.len());
        let class = p.names[chunks[i as int].0 as int];
        let m = redpackage_decoder::class_at(p, class, start, end)->Ok_0.0;
        lemma_chunks(p, chunks, i + 1, found.push(m), k);
        if k == i {
            assert(found.push(m)[k as int] == m);
        }
    }
}

/// Each chunk of a package is the class that its descriptor names, from its own start up
/// to the start of the next.
pub proof fn law_chunk_read(p: Package, chunks: Seq<(nat, nat)>, k: nat)
    requires
        k < chunks.len(),
        redpackage_document::chunk_values(p, chunks, 0, Seq::empty()) is Ok,
    ensures
        ({
            let all = redpackage_document::chunk_values(p, chunks, 0, Seq::empty())->Ok_0;
            let end = if k + 1 < chunks.len() {
                chunks[k as int + 1].1
            } else {
                p.bytes.len()
            };
            &&& all.len() == chunks.len()
            &&& chunks[k as int].0 < p.names.len()
            &&& redpackage_decoder::class_at(
                p,
                p.names[chunks[k as int].0 as int],
                chunks[k as int].1,
                end,
            ) matches Ok((m, consumed)) && m == all[k as int] && consumed <= end
        }),
{
    lemma_chunks(p, chunks, 0, Seq::empty(), k);
}

proof fn lemma_points(items: Seq<value::Model>, index: nat)
    ensures
        redpackage_document::any_points_to(items, index) <==> exists|k: int|
            0 <= k < items.len() && redpackage_document::points_to(#[trigger] items[k], index),
    decreases items.len(),
{
    if items.len() > 0 {
        let front = items.drop_last();
        lemma_points(front, index);
        if redpackage_document::any_points_to(front, index) {
            let k = choose|k: int|
                0 <= k < front.len() && redpackage_document::points_to(
                    #[trigger] front[k],
                    index,
                );
            assert(items[k] == front[k]);
        }
        if redpackage_document::points_to(items.last(), index) {
            assert(redpackage_document::points_to(items[items.len() - 1], index));
        }
        if exists|k: int|
            0 <= k < items.len() && redpackage_document::points_to(#[trigger] items[k], index) {
            let k = choose|k: int|
                0 <= k < items.len() && redpackage_document::points_to(
                    #[trigger] items[k],
                    index,
                );
            if k < front.len() {
                assert(front[k] == items[k]);
            }
        }
    }
}

/// The chunks that a document lists are just those to which no chunk points, in their
/// order.
pub proof fn law_roots(chunks: Seq<value::Model>, n: nat)
    ensures
        ({
            let roots = redpackage_document::roots(chunks, n);
            &&& forall|k: int|
                0 <= k < roots.len() ==> #[trigger] roots[k] < n && !(exists|c: int|
                    0 <= c < chunks.len() && redpackage_document::points_to(
                        #[trigger] chunks[c],
                        roots[k],
                    ))
            &&& forall|i: nat|
                i < n && !(exists|c: int|
                    0 <= c < chunks.len() && redpackage_document::points_to(
                        #[trigger] chunks[c],
                        i,
                    )) ==> #[trigger] roots.contains(i)
            &&& forall|j: int, k: int|
                0 <= j < k < roots.len() ==> #[trigger] roots[j] < #[trigger] roots[k]
        }),
    decreases n,
{
    if n > 0 {
        let last = (n - 1) as nat;
        let before = redpackage_document::roots(chunks, last);
        let roots = redpackage_document::roots(chunks, n);
        law_roots(chunks, last);
        lemma_points(chunks, last);
        assert forall|i: nat|
            i < n && !(exists|c: int|
                0 <= c < chunks.len() && redpackage_document::points_to(#[trigger] chunks[c], i))
            implies #[trigger] roots.contains(i) by {
            if i < last {
                assert(before.contains(i));
                let k = choose|k: int| 0 <= k < before.len() && before[k] == i;
                assert(roots[k] == i);
            } else {
                assert(roots[before.len() as int] == i);
            }
        }
    }
}

// ---------------------------------------------------------------------------
// Handles
// ---------------------------------------------------------------------------

/// A handle of a package is written with the chunk it leads to the first time, and by its
/// identity from then on. Identities count from a base on in the order of the chunks.
pub proof fn law_handle_written(
    index: nat,
    chunks: Seq<value::Model>,
    visited: Seq<bool>,
    base: nat,
    depth: nat,
)
    requires
        index < chunks.len(),
        index < visited.len(),
        base + index <= usize::MAX,
        index <= i64::MAX,
        depth > 0,
    ensures
        ({
            let handle = value::Model::Object(seq![("$package_handle"@, whole(index as int))]);
            let written = redpackage_document::expanded(handle, chunks, visited, base, depth);
            let inner = redpackage_document::expanded(
                chunks[index as int],
                chunks,
                visited.update(index as int, true),
                base,
                (depth - 1) as nat,
            );
            let id = said(number_text::decimal(base + index));
            &&& visited[index as int] ==> (written matches Ok((m, after)) && after == visited
                && has_fields(m, seq![("HandleRefId"@, id)]))
            &&& !visited[index as int] && inner is Ok ==> (written matches Ok((m, after)) && after
                == inner->Ok_0.1 && has_fields(
                m,
                seq![("HandleId"@, id), ("Data"@, inner->Ok_0.0)],
            ))
            &&& !visited[index as int] && inner is Err ==> written is Err
        }),
{
    let fields = seq![("$package_handle"@, whole(index as int))];
    assert(fields[0].0 == "$package_handle"@);
    assert(entries::find(fields, "$package_handle"@) == Some(whole(index as int)));
    assert(redpackage_document::target(fields) == Some(index));
    let none = Seq::<(Seq<char>, value::Model)>::empty();
    let id = said(number_text::decimal(base + index));
    object_laws::lemma_none::<value::Model>();
    object_laws::lemma_with(none, none, "HandleRefId"@, id);
    assert(none.push(("HandleRefId"@, id)) =~= seq![("HandleRefId"@, id)]);
    reveal_strlit("HandleId");
    reveal_strlit("Data");
    assert("HandleId"@.len() == 8 && "Data"@.len() == 4);
    let inner = redpackage_document::expanded(
        chunks[index as int],
        chunks,
        visited.update(index as int, true),
        base,
        (depth - 1) as nat,
    );
    if inner is Ok {
        codec_leaf_laws::lemma_pair("HandleId"@, id, "Data"@, inner->Ok_0.0);
    }
}

/// The document of a package has its version, its sections, its identifiers and its
/// chunks under their names.
pub proof fn law_document(
    version: nat,
    sections: nat,
    cruid_index: int,
    cruids: Seq<nat>,
    chunks: Seq<value::Model>,
    settings: PackageSettings,
) -> (out: Seq<value::Model>)
    requires
        redpackage_document::document(
            version,
            sections,
            cruid_index,
            cruids,
            chunks,
            settings,
        ) is Ok,
    ensures
        has_fields(
            redpackage_document::document(
                version,
                sections,
                cruid_index,
                cruids,
                chunks,
                settings,
            )->Ok_0,
            seq![
                ("Version"@, whole(version as int)),
                ("Sections"@, whole(sections as int)),
                ("CruidIndex"@, whole(cruid_index)),
                (
                    "CruidDict"@,
                    value::Model::Object(redpackage_document::number_dict(cruids, out.len())),
                ),
                ("Chunks"@, value::Model::Array(out)),
            ],
        ),
{
    let out = redpackage_document::expanded_items(
        redpackage_document::chosen(chunks, redpackage_document::roots(chunks, chunks.len())),
        chunks,
        Seq::new(chunks.len(), |i: int| false),
        settings.handle_id_base as nat,
        chunks.len(),
    )->Ok_0.0;
    reveal_strlit("Version");
    reveal_strlit("Sections");
    reveal_strlit("CruidIndex");
    reveal_strlit("CruidDict");
    reveal_strlit("Chunks");
    assert("Version"@.len() == 7 && "Sections"@.len() == 8 && "CruidIndex"@.len() == 10
        && "CruidDict"@.len() == 9 && "Chunks"@.len() == 6);
    redpackage_stored_laws::lemma_five(
        "Version"@,
        whole(version as int),
        "Sections"@,
        whole(sections as int),
        "CruidIndex"@,
        whole(cruid_index),
        "CruidDict"@,
        value::Model::Object(redpackage_document::number_dict(cruids, out.len())),
        "Chunks"@,
        value::Model::Array(out),
    );
    out
}

} // verus!
