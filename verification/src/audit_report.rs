//! The counts that an audit of resources keeps, in all and by type.

use crate::entries;
use crate::entries::{position, set_value};
use crate::value::copy_text;
use vstd::prelude::*;

verus! {

/// What was counted in all.
#[derive(Debug, Clone, Copy, PartialEq, Eq, Structural)]
pub struct Summary {
    pub archive_entries: u64,
    pub cr2w_files: u64,
    pub extraction_failures: u64,
    pub wolvenkit_serialized: u64,
    pub ghostline_serialized: u64,
    pub serialize_data_equal: u64,
    pub ghostline_from_wolvenkit: u64,
    pub ghostline_from_wolvenkit_exact_original: u64,
    pub wolvenkit_reserialized_ghostline: u64,
    pub deserialize_data_equal: u64,
}

/// What was counted of a type.
#[derive(Debug, Clone, Copy, PartialEq, Eq, Structural)]
pub struct TypeSummary {
    pub files: u64,
    pub ghostline_serialized: u64,
    pub serialize_data_equal: u64,
    pub ghostline_from_wolvenkit_exact_original: u64,
    pub deserialize_data_equal: u64,
}

impl View for TypeSummary {
    type V = TypeSummary;

    open spec fn view(&self) -> TypeSummary {
        *self
    }
}

impl View for Summary {
    type V = Summary;

    open spec fn view(&self) -> Summary {
        *self
    }
}

/// No counts.
pub open spec fn nothing() -> Summary {
    Summary {
        archive_entries: 0,
        cr2w_files: 0,
        extraction_failures: 0,
        wolvenkit_serialized: 0,
        ghostline_serialized: 0,
        serialize_data_equal: 0,
        ghostline_from_wolvenkit: 0,
        ghostline_from_wolvenkit_exact_original: 0,
        wolvenkit_reserialized_ghostline: 0,
        deserialize_data_equal: 0,
    }
}

/// No counts of a type.
pub open spec fn no_files() -> TypeSummary {
    TypeSummary {
        files: 0,
        ghostline_serialized: 0,
        serialize_data_equal: 0,
        ghostline_from_wolvenkit_exact_original: 0,
        deserialize_data_equal: 0,
    }
}

impl Default for Summary {
    fn default() -> (result: Self)
        ensures
            result == nothing(),
    {
        Summary {
            archive_entries: 0,
            cr2w_files: 0,
            extraction_failures: 0,
            wolvenkit_serialized: 0,
            ghostline_serialized: 0,
            serialize_data_equal: 0,
            ghostline_from_wolvenkit: 0,
            ghostline_from_wolvenkit_exact_original: 0,
            wolvenkit_reserialized_ghostline: 0,
            deserialize_data_equal: 0,
        }
    }
}

impl Default for TypeSummary {
    fn default() -> (result: Self)
        ensures
            result == no_files(),
    {
        TypeSummary {
            files: 0,
            ghostline_serialized: 0,
            serialize_data_equal: 0,
            ghostline_from_wolvenkit_exact_original: 0,
            deserialize_data_equal: 0,
        }
    }
}

/// A sum, as far as a counter goes.
pub open spec fn total(a: u64, b: u64) -> u64 {
    if a + b > u64::MAX {
        u64::MAX
    } else {
        (a + b) as u64
    }
}

/// Adds two counts, as far as a counter goes.
pub fn count(a: u64, b: u64) -> (result: u64)
    ensures
        result == total(a, b),
{
    if b > u64::MAX - a {
        u64::MAX
    } else {
        a + b
    }
}

/// The counts of a part added to those of a whole. The entries, files and
/// failures of the whole are counted beforehand.
pub open spec fn with_part(whole: Summary, part: Summary) -> Summary {
    Summary {
        wolvenkit_serialized: total(whole.wolvenkit_serialized, part.wolvenkit_serialized),
        ghostline_serialized: total(whole.ghostline_serialized, part.ghostline_serialized),
        serialize_data_equal: total(whole.serialize_data_equal, part.serialize_data_equal),
        ghostline_from_wolvenkit: total(
            whole.ghostline_from_wolvenkit,
            part.ghostline_from_wolvenkit,
        ),
        ghostline_from_wolvenkit_exact_original: total(
            whole.ghostline_from_wolvenkit_exact_original,
            part.ghostline_from_wolvenkit_exact_original,
        ),
        wolvenkit_reserialized_ghostline: total(
            whole.wolvenkit_reserialized_ghostline,
            part.wolvenkit_reserialized_ghostline,
        ),
        deserialize_data_equal: total(whole.deserialize_data_equal, part.deserialize_data_equal),
        ..whole
    }
}

/// Adds the counts of a part to those of a whole.
pub fn add_part(whole: &mut Summary, part: &Summary)
    ensures
        *final(whole) == with_part(*old(whole), *part),
{
    whole.wolvenkit_serialized = count(whole.wolvenkit_serialized, part.wolvenkit_serialized);
    whole.ghostline_serialized = count(whole.ghostline_serialized, part.ghostline_serialized);
    whole.serialize_data_equal = count(whole.serialize_data_equal, part.serialize_data_equal);
    whole.ghostline_from_wolvenkit = count(
        whole.ghostline_from_wolvenkit,
        part.ghostline_from_wolvenkit,
    );
    whole.ghostline_from_wolvenkit_exact_original = count(
        whole.ghostline_from_wolvenkit_exact_original,
        part.ghostline_from_wolvenkit_exact_original,
    );
    whole.wolvenkit_reserialized_ghostline = count(
        whole.wolvenkit_reserialized_ghostline,
        part.wolvenkit_reserialized_ghostline,
    );
    whole.deserialize_data_equal = count(whole.deserialize_data_equal, part.deserialize_data_equal);
}

/// The larger of two counts.
pub open spec fn larger(a: u64, b: u64) -> u64 {
    if a >= b {
        a
    } else {
        b
    }
}

fn largest(a: u64, b: u64) -> (result: u64)
    ensures
        result == larger(a, b),
{
    if a >= b {
        a
    } else {
        b
    }
}

/// The counts of two reports together. An exact rebuild is always equal in its
/// data, also where an older report does not say so.
pub open spec fn merged(target: Summary, source: Summary) -> Summary {
    Summary {
        archive_entries: total(target.archive_entries, source.archive_entries),
        cr2w_files: total(target.cr2w_files, source.cr2w_files),
        extraction_failures: total(target.extraction_failures, source.extraction_failures),
        deserialize_data_equal: total(
            target.deserialize_data_equal,
            larger(source.deserialize_data_equal, source.ghostline_from_wolvenkit_exact_original),
        ),
        ..with_part(target, source)
    }
}

/// Adds the counts of a report to those of others.
pub fn merge_summary(target: &mut Summary, source: &Summary)
    ensures
        *final(target) == merged(*old(target), *source),
{
    let equal: u64 = count(
        target.deserialize_data_equal,
        largest(source.deserialize_data_equal, source.ghostline_from_wolvenkit_exact_original),
    );
    add_part(target, source);
    target.archive_entries = count(target.archive_entries, source.archive_entries);
    target.cr2w_files = count(target.cr2w_files, source.cr2w_files);
    target.extraction_failures = count(target.extraction_failures, source.extraction_failures);
    target.deserialize_data_equal = equal;
}

/// The counts of a type added to others of the type. `exact` says whether an
/// exact rebuild counts as equal in its data.
pub open spec fn with_type(target: TypeSummary, source: TypeSummary, exact: bool) -> TypeSummary {
    TypeSummary {
        files: total(target.files, source.files),
        ghostline_serialized: total(target.ghostline_serialized, source.ghostline_serialized),
        serialize_data_equal: total(target.serialize_data_equal, source.serialize_data_equal),
        ghostline_from_wolvenkit_exact_original: total(
            target.ghostline_from_wolvenkit_exact_original,
            source.ghostline_from_wolvenkit_exact_original,
        ),
        deserialize_data_equal: total(
            target.deserialize_data_equal,
            if exact {
                larger(
                    source.deserialize_data_equal,
                    source.ghostline_from_wolvenkit_exact_original,
                )
            } else {
                source.deserialize_data_equal
            },
        ),
    }
}

fn add_type(target: TypeSummary, source: TypeSummary, exact: bool) -> (result: TypeSummary)
    ensures
        result == with_type(target, source, exact),
{
    TypeSummary {
        files: count(target.files, source.files),
        ghostline_serialized: count(target.ghostline_serialized, source.ghostline_serialized),
        serialize_data_equal: count(target.serialize_data_equal, source.serialize_data_equal),
        ghostline_from_wolvenkit_exact_original: count(
            target.ghostline_from_wolvenkit_exact_original,
            source.ghostline_from_wolvenkit_exact_original,
        ),
        deserialize_data_equal: count(
            target.deserialize_data_equal,
            if exact {
                largest(
                    source.deserialize_data_equal,
                    source.ghostline_from_wolvenkit_exact_original,
                )
            } else {
                source.deserialize_data_equal
            },
        ),
    }
}

/// The counts of a type, none where it was not met.
pub open spec fn counts_of(types: Seq<(Seq<char>, TypeSummary)>, name: Seq<char>) -> TypeSummary {
    match entries::find(types, name) {
        Some(counts) => counts,
        None => no_files(),
    }
}

/// The counts of the first `n` types added to others.
pub open spec fn merged_types(
    target: Seq<(Seq<char>, TypeSummary)>,
    source: Seq<(Seq<char>, TypeSummary)>,
    exact: bool,
    n: nat,
) -> Seq<(Seq<char>, TypeSummary)>
    decreases n,
{
    if n == 0 {
        target
    } else {
        let before = merged_types(target, source, exact, (n - 1) as nat);
        let (name, counts) = source[n - 1];
        entries::put(before, name, with_type(counts_of(before, name), counts, exact))
    }
}

/// Finds the counts of a type.
pub fn find_counts(types: &Vec<(String, TypeSummary)>, name: &str) -> (result: TypeSummary)
    ensures
        result == counts_of(entries::keyed(types@), name@),
{
    match position(types, name) {
        Some(at) => {
            assert(entries::keyed(types@)[at as int].1 == types@[at as int].1);
            types[at].1
        },
        None => TypeSummary::default(),
    }
}

/// Adds the counts of types to others.
pub fn merge_types(
    target: &mut Vec<(String, TypeSummary)>,
    source: &Vec<(String, TypeSummary)>,
    exact: bool,
)
    ensures
        entries::keyed(final(target)@) == merged_types(
            entries::keyed(old(target)@),
            entries::keyed(source@),
            exact,
            source@.len(),
        ),
{
    let ghost before = entries::keyed(target@);
    let ghost added = entries::keyed(source@);
    let mut i: usize = 0;
    while i < source.len()
        invariant
            i <= source@.len(),
            added == entries::keyed(source@),
            entries::keyed(target@) == merged_types(before, added, exact, i as nat),
        decreases source@.len() - i,
    {
        assert(added[i as int] == (source@[i as int].0@, source@[i as int].1));
        let name: &str = source[i].0.as_str();
        let counts: TypeSummary = add_type(find_counts(target, name), source[i].1, exact);
        set_value(target, copy_text(name), counts);
        i = i + 1;
    }
}

/// One count of a type put up by one.
pub open spec fn with_count(
    types: Seq<(Seq<char>, TypeSummary)>,
    name: Seq<char>,
    more: TypeSummary,
) -> Seq<(Seq<char>, TypeSummary)> {
    entries::put(types, name, with_type(counts_of(types, name), more, false))
}

/// Puts counts of a type up.
pub fn count_type(types: &mut Vec<(String, TypeSummary)>, name: &str, more: TypeSummary)
    ensures
        entries::keyed(final(types)@) == with_count(entries::keyed(old(types)@), name@, more),
{
    let counts: TypeSummary = add_type(find_counts(types, name), more, false);
    set_value(types, copy_text(name), counts);
}

/// Reports can be added in any order.
pub proof fn law_merge_order(a: Summary, b: Summary, c: Summary)
    ensures
        merged(merged(a, b), c) == merged(merged(a, c), b),
{
}

/// Counts of one type do not change those of another.
pub proof fn law_types_apart(
    types: Seq<(Seq<char>, TypeSummary)>,
    name: Seq<char>,
    more: TypeSummary,
    other: Seq<char>,
)
    requires
        entries::rising(types),
        name != other,
    ensures
        counts_of(with_count(types, name, more), other) == counts_of(types, other),
        counts_of(with_count(types, name, more), name) == with_type(
            counts_of(types, name),
            more,
            false,
        ),
{
    let counts = with_type(counts_of(types, name), more, false);
    entries::law_find_other(types, name, counts, other);
    entries::law_find_put(types, name, counts);
}

} // verus!
