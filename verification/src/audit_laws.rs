//! What an audit counts, and where it finds differences.

use crate::audit;
use crate::audit::{OracleModel, RebuildModel};
use crate::audit_report;
use crate::audit_report::{Summary, TypeSummary};
use crate::difference;
use crate::number_text;
use crate::value;
use vstd::prelude::*;

verus! {

// ---------------------------------------------------------------------------
// Counts
// ---------------------------------------------------------------------------

/// A number, as far as a counter goes.
pub open spec fn counter(n: nat) -> u64 {
    if n > 0xffff_ffff_ffff_ffff {
        0xffff_ffff_ffff_ffff
    } else {
        n as u64
    }
}

/// Each count of two reports together is the sum of theirs. A rebuild that is exact is
/// counted as equal in its data, whether or not the report added says so.
pub proof fn law_summed(a: Summary, b: Summary)
    ensures
        ({
            let all = audit_report::merged(a, b);
            let equal = if b.deserialize_data_equal < b.ghostline_from_wolvenkit_exact_original {
                b.ghostline_from_wolvenkit_exact_original
            } else {
                b.deserialize_data_equal
            };
            &&& all.archive_entries == counter((a.archive_entries + b.archive_entries) as nat)
            &&& all.cr2w_files == counter((a.cr2w_files + b.cr2w_files) as nat)
            &&& all.extraction_failures == counter(
                (a.extraction_failures + b.extraction_failures) as nat,
            )
            &&& all.wolvenkit_serialized == counter(
                (a.wolvenkit_serialized + b.wolvenkit_serialized) as nat,
            )
            &&& all.ghostline_serialized == counter(
                (a.ghostline_serialized + b.ghostline_serialized) as nat,
            )
            &&& all.serialize_data_equal == counter(
                (a.serialize_data_equal + b.serialize_data_equal) as nat,
            )
            &&& all.ghostline_from_wolvenkit == counter(
                (a.ghostline_from_wolvenkit + b.ghostline_from_wolvenkit) as nat,
            )
            &&& all.ghostline_from_wolvenkit_exact_original == counter(
                (a.ghostline_from_wolvenkit_exact_original
                    + b.ghostline_from_wolvenkit_exact_original) as nat,
            )
            &&& all.wolvenkit_reserialized_ghostline == counter(
                (a.wolvenkit_reserialized_ghostline + b.wolvenkit_reserialized_ghostline) as nat,
            )
            &&& all.deserialize_data_equal == counter((a.deserialize_data_equal + equal) as nat)
        }),
{
}

/// Each count of a type is the sum of what was counted of it.
pub proof fn law_types_summed(a: TypeSummary, b: TypeSummary)
    ensures
        ({
            let all = audit_report::with_type(a, b, false);
            &&& all.files == counter((a.files + b.files) as nat)
            &&& all.ghostline_serialized == counter(
                (a.ghostline_serialized + b.ghostline_serialized) as nat,
            )
            &&& all.serialize_data_equal == counter(
                (a.serialize_data_equal + b.serialize_data_equal) as nat,
            )
            &&& all.ghostline_from_wolvenkit_exact_original == counter(
                (a.ghostline_from_wolvenkit_exact_original
                    + b.ghostline_from_wolvenkit_exact_original) as nat,
            )
            &&& all.deserialize_data_equal == counter(
                (a.deserialize_data_equal + b.deserialize_data_equal) as nat,
            )
        }),
{
}

/// A resource is counted as read by each tool that made a document of it, as equal where
/// their data do not differ, and as rebuilt where the bytes came back. It has no failure
/// just where all of that is so.
pub proof fn law_outcome(
    hash: u64,
    oracle: OracleModel,
    own: Result<value::Model, Seq<char>>,
    rebuild: RebuildModel,
)
    ensures
        ({
            let outcome = audit::file_outcome(hash, oracle, own, rebuild);
            let s = outcome.summary;
            let equal = oracle is Document && own is Ok && difference::difference(
                value::member(oracle->Document_0, "Data"@),
                value::member(own->Ok_0, "Data"@),
                "$.Data"@,
            ) is None;
            &&& s.wolvenkit_serialized == 1 <==> oracle is Document
            &&& s.wolvenkit_serialized <= 1
            &&& s.ghostline_serialized == 1 <==> own is Ok
            &&& s.ghostline_serialized <= 1
            &&& s.serialize_data_equal == 1 <==> equal
            &&& s.serialize_data_equal <= 1
            &&& s.ghostline_from_wolvenkit == 1 <==> oracle is Document && !(rebuild is Failed)
            &&& s.ghostline_from_wolvenkit_exact_original == 1 <==> oracle is Document && rebuild
                is Exact
            &&& s.deserialize_data_equal == s.ghostline_from_wolvenkit_exact_original
            &&& outcome.failures.len() == 0 <==> equal && rebuild is Exact
        }),
{
}

/// Just the entries with one of the wanted hashes are chosen, each as a range of its own,
/// in their order.
pub proof fn law_chosen(hashes: Seq<u64>, wanted: Seq<u64>, n: nat)
    requires
        n <= hashes.len() <= usize::MAX,
    ensures
        ({
            let ranges = audit::chosen_ranges(hashes, wanted, n);
            &&& forall|k: int|
                0 <= k < ranges.len() ==> {
                    let r = #[trigger] ranges[k];
                    r.0 < n && r.1 == r.0 + 1 && wanted.contains(hashes[r.0 as int])
                }
            &&& forall|i: nat|
                i < n && wanted.contains(#[trigger] hashes[i as int]) ==> ranges.contains(
                    (i as usize, (i + 1) as usize),
                )
            &&& forall|j: int, k: int|
                0 <= j < k < ranges.len() ==> (#[trigger] ranges[j]).0 < (#[trigger] ranges[k]).0
        }),
    decreases n,
{
    if n > 0 {
        let before = audit::chosen_ranges(hashes, wanted, (n - 1) as nat);
        law_chosen(hashes, wanted, (n - 1) as nat);
        let ranges = audit::chosen_ranges(hashes, wanted, n);
        assert forall|i: nat|
            i < n && wanted.contains(#[trigger] hashes[i as int]) implies ranges.contains(
            (i as usize, (i + 1) as usize),
        ) by {
            if i < n - 1 {
                assert(before.contains((i as usize, (i + 1) as usize)));
                let k = choose|k: int|
                    0 <= k < before.len() && before[k] == (i as usize, (i + 1) as usize);
                assert(ranges[k] == before[k]);
            } else {
                assert(ranges[before.len() as int] == (i as usize, (i + 1) as usize));
            }
        }
    }
}

// ---------------------------------------------------------------------------
// Differences
// ---------------------------------------------------------------------------

proof fn lemma_items_same(own: Seq<value::Model>, other: Seq<value::Model>, path: Seq<char>)
    requires
        forall|k: nat|
            k < own.len() ==> k < other.len() && difference::differs(
                #[trigger] own[k as int],
                Some(other[k as int]),
                path + "["@ + number_text::decimal(k) + "]"@,
            ) is None,
    ensures
        difference::items_differ(own, other, path) is None,
    decreases own.len(),
{
    if own.len() > 0 {
        let front = own.drop_last();
        assert forall|k: nat| k < front.len() implies k < other.len() && difference::differs(
            #[trigger] front[k as int],
            Some(other[k as int]),
            path + "["@ + number_text::decimal(k) + "]"@,
        ) is None by {
            assert(front[k as int] == own[k as int]);
        }
        lemma_items_same(front, other, path);
        let last = (own.len() - 1) as nat;
        assert(own[last as int] == own.last());
    }
}

proof fn lemma_items_found(
    own: Seq<value::Model>,
    other: Seq<value::Model>,
    path: Seq<char>,
    n: nat,
)
    requires
        n <= own.len(),
        difference::items_differ(own.subrange(0, n as int), other, path) is Some,
    ensures
        difference::items_differ(own, other, path) == difference::items_differ(
            own.subrange(0, n as int),
            other,
            path,
        ),
    decreases own.len() - n,
{
    if n == own.len() {
        assert(own.subrange(0, n as int) =~= own);
    } else {
        assert(own.subrange(0, n as int + 1).drop_last() =~= own.subrange(0, n as int));
        lemma_items_found(own, other, path, n + 1);
    }
}

/// The first difference of two arrays is that of the first items that differ, under the
/// place of those.
pub proof fn law_first_item(
    own: Seq<value::Model>,
    other: Seq<value::Model>,
    path: Seq<char>,
    i: nat,
)
    requires
        i < own.len(),
        i < other.len(),
        forall|k: nat|
            k < i ==> difference::differs(
                #[trigger] own[k as int],
                Some(other[k as int]),
                path + "["@ + number_text::decimal(k) + "]"@,
            ) is None,
        difference::differs(
            own[i as int],
            Some(other[i as int]),
            path + "["@ + number_text::decimal(i) + "]"@,
        ) is Some,
    ensures
        difference::differs(
            value::Model::Array(own),
            Some(value::Model::Array(other)),
            path,
        ) == difference::differs(
            own[i as int],
            Some(other[i as int]),
            path + "["@ + number_text::decimal(i) + "]"@,
        ),
{
    let front = own.subrange(0, i as int);
    assert forall|k: nat| k < front.len() implies k < other.len() && difference::differs(
        #[trigger] front[k as int],
        Some(other[k as int]),
        path + "["@ + number_text::decimal(k) + "]"@,
    ) is None by {
        assert(front[k as int] == own[k as int]);
    }
    lemma_items_same(front, other, path);
    let more = own.subrange(0, i as int + 1);
    assert(more.drop_last() =~= front);
    assert(more.last() == own[i as int]);
    lemma_items_found(own, other, path, i + 1);
}

/// Values without parts that are not the same differ where they stand, and both are
/// shown, the expected one first.
pub proof fn law_leaf_difference(a: Seq<char>, b: Seq<char>, path: Seq<char>)
    requires
        a != b,
    ensures
        difference::differs(value::Model::Text(a), Some(value::Model::Text(b)), path) matches Some(
            found,
        ) && found.path == path && found.expected == difference::seen(
            Some(value::Model::Text(a)),
        ) && found.actual == difference::seen(Some(value::Model::Text(b))),
{
}

} // verus!
