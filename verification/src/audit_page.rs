//! A consolidated audit report as a page of Markdown.

use crate::audit_report;
use crate::audit_report::TypeSummary;
use crate::audit_summary;
use crate::audit_summary::{
    percent, ConsolidatedReport, ExampleModel, Examples, FailureExample, ReportModel, SHOWN_TYPES,
};
use crate::entries;
use crate::number_text;
use crate::number_text::decimal_text;
use crate::text::{chars_of, push_text, text_of};
use crate::value::copy_text;
use vstd::prelude::*;

verus! {

/// A count with what it counts.
pub open spec fn plain_line(label: Seq<char>, n: nat) -> Seq<char> {
    "- "@ + label + ": "@ + number_text::decimal(n) + "\n"@
}

/// A count with what it counts, and its share of another count.
pub open spec fn share_line(label: Seq<char>, n: nat, of: nat) -> Seq<char> {
    "- "@ + label + ": "@ + number_text::decimal(n) + " ("@ + audit_summary::share(n, of) + ")\n"@
}

/// The counts in all.
pub open spec fn totals_section(r: ReportModel) -> Seq<char> {
    let t = r.totals;
    let of = t.wolvenkit_serialized as nat;
    "# Vanilla CR2W differential audit\n\n"@ + plain_line("Shard reports"@, r.shard_reports)
        + plain_line("Archive entries inspected"@, t.archive_entries as nat) + plain_line(
        "CR2W resources staged"@,
        t.cr2w_files as nat,
    ) + share_line("WolvenKit serialization oracle successes"@, of, t.cr2w_files as nat)
        + share_line("ghostline-red serialization successes"@, t.ghostline_serialized as nat, of)
        + share_line(
        "Exact WolvenKit `Data` matches after serialization"@,
        t.serialize_data_equal as nat,
        of,
    ) + share_line(
        "ghostline-red deserialization successes"@,
        t.ghostline_from_wolvenkit as nat,
        of,
    ) + share_line(
        "Byte-identical vanilla rebuilds"@,
        t.ghostline_from_wolvenkit_exact_original as nat,
        of,
    ) + share_line("Semantically equal rebuilds"@, t.deserialize_data_equal as nat, of)
        + plain_line("Native Kraken staging failures"@, t.extraction_failures as nat) + "\n"@
}

/// Names with counts, as numbers.
pub open spec fn counted(list: Seq<(Seq<char>, u64)>) -> Seq<(Seq<char>, nat)> {
    list.map_values(|item: (Seq<char>, u64)| (item.0, item.1 as nat))
}

/// The first `n` rows of the table of phases.
pub open spec fn phase_rows(list: Seq<(Seq<char>, nat)>, n: nat) -> Seq<char>
    decreases n,
{
    if n == 0 {
        Seq::empty()
    } else {
        phase_rows(list, (n - 1) as nat) + "| `"@ + list[n - 1].0 + "` | "@ + number_text::decimal(
            list[n - 1].1,
        ) + " |\n"@
    }
}

/// The failures by phase, the most common first.
pub open spec fn phases_section(r: ReportModel) -> Seq<char> {
    let list = audit_summary::ranked(counted(r.failure_phases));
    "## Divergences by phase\n\n"@ + "| Phase | Count |\n"@ + "|---|---:|\n"@ + phase_rows(
        list,
        list.len(),
    )
}

/// Types with the number of their files.
pub open spec fn type_files(types: Seq<(Seq<char>, TypeSummary)>) -> Seq<(Seq<char>, nat)> {
    types.map_values(|item: (Seq<char>, TypeSummary)| (item.0, item.1.files as nat))
}

/// The row of a type.
pub open spec fn type_row(name: Seq<char>, t: TypeSummary) -> Seq<char> {
    "| `"@ + name + "` | "@ + number_text::decimal(t.files as nat) + " | "@ + number_text::decimal(
        t.ghostline_serialized as nat,
    ) + " | "@ + number_text::decimal(t.serialize_data_equal as nat) + " | "@
        + number_text::decimal(t.ghostline_from_wolvenkit_exact_original as nat) + " | "@
        + number_text::decimal(t.deserialize_data_equal as nat) + " |\n"@
}

/// The first `n` rows of the table of types.
pub open spec fn type_rows(
    list: Seq<(Seq<char>, nat)>,
    types: Seq<(Seq<char>, TypeSummary)>,
    n: nat,
) -> Seq<char>
    decreases n,
{
    if n == 0 {
        Seq::empty()
    } else {
        type_rows(list, types, (n - 1) as nat) + type_row(
            list[n - 1].0,
            audit_report::counts_of(types, list[n - 1].0),
        )
    }
}

/// The most common types.
pub open spec fn types_section(r: ReportModel) -> Seq<char> {
    let list = audit_summary::ranked(type_files(r.types));
    "\n## Most common root types\n\n"@
        + "| Root type | Files | Serialized | Serialize matches | Exact rebuilds | Semantic rebuilds |\n"@
        + "|---|---:|---:|---:|---:|---:|\n"@ + type_rows(
        list,
        r.types,
        if list.len() > SHOWN_TYPES {
            SHOWN_TYPES as nat
        } else {
            list.len()
        },
    )
}

/// A text on one line of a table.
pub open spec fn flattened(text: Seq<char>) -> Seq<char> {
    text.map_values(
        |c: char|
            if c == '\r' || c == '\n' || c == '|' {
                ' '
            } else {
                c
            },
    )
}

/// An example of a failure.
pub open spec fn example_line(e: ExampleModel) -> Seq<char> {
    "- `"@ + e.archive + "` / `"@ + e.name_hash + "` / `"@ + (match e.root_type {
        Some(name) => name,
        None => "<unknown>"@,
    }) + "`: "@ + flattened(e.detail) + "\n"@
}

/// The first `n` examples of a phase.
pub open spec fn example_lines(list: Seq<ExampleModel>, n: nat) -> Seq<char>
    decreases n,
{
    if n == 0 {
        Seq::empty()
    } else {
        example_lines(list, (n - 1) as nat) + example_line(list[n - 1])
    }
}

/// The examples of the first `n` phases.
pub open spec fn example_sections(list: Seq<(Seq<char>, Seq<ExampleModel>)>, n: nat) -> Seq<char>
    decreases n,
{
    if n == 0 {
        Seq::empty()
    } else {
        example_sections(list, (n - 1) as nat) + "### `"@ + list[n - 1].0 + "`\n\n"@
            + example_lines(list[n - 1].1, list[n - 1].1.len()) + "\n"@
    }
}

/// The page.
pub open spec fn page(r: ReportModel) -> Seq<char> {
    totals_section(r) + phases_section(r) + types_section(r)
        + "\n## Representative divergences\n\n"@ + example_sections(r.examples, r.examples.len())
}

fn push_plain(out: &mut String, label: &str, n: u64)
    ensures
        final(out)@ == old(out)@ + plain_line(label@, n as nat),
{
    push_text(out, "- ");
    push_text(out, label);
    push_text(out, ": ");
    push_text(out, decimal_text(n).as_str());
    push_text(out, "\n");
    assert(out@ =~= old(out)@ + plain_line(label@, n as nat));
}

fn push_share(out: &mut String, label: &str, n: u64, of: u64)
    ensures
        final(out)@ == old(out)@ + share_line(label@, n as nat, of as nat),
{
    push_text(out, "- ");
    push_text(out, label);
    push_text(out, ": ");
    push_text(out, decimal_text(n).as_str());
    push_text(out, " (");
    push_text(out, percent(n, of).as_str());
    push_text(out, ")\n");
    assert(out@ =~= old(out)@ + share_line(label@, n as nat, of as nat));
}

fn totals_text(r: &ConsolidatedReport) -> (result: String)
    ensures
        result@ == totals_section(r@),
{
    let of: u64 = r.totals.wolvenkit_serialized;
    let mut out: String = copy_text("# Vanilla CR2W differential audit\n\n");
    push_plain(&mut out, "Shard reports", r.shard_reports as u64);
    push_plain(&mut out, "Archive entries inspected", r.totals.archive_entries);
    push_plain(&mut out, "CR2W resources staged", r.totals.cr2w_files);
    push_share(&mut out, "WolvenKit serialization oracle successes", of, r.totals.cr2w_files);
    push_share(
        &mut out,
        "ghostline-red serialization successes",
        r.totals.ghostline_serialized,
        of,
    );
    push_share(
        &mut out,
        "Exact WolvenKit `Data` matches after serialization",
        r.totals.serialize_data_equal,
        of,
    );
    push_share(
        &mut out,
        "ghostline-red deserialization successes",
        r.totals.ghostline_from_wolvenkit,
        of,
    );
    push_share(
        &mut out,
        "Byte-identical vanilla rebuilds",
        r.totals.ghostline_from_wolvenkit_exact_original,
        of,
    );
    push_share(&mut out, "Semantically equal rebuilds", r.totals.deserialize_data_equal, of);
    push_plain(&mut out, "Native Kraken staging failures", r.totals.extraction_failures);
    push_text(&mut out, "\n");
    out
}

/// Names with counts, as they are.
pub open spec fn rank_models(list: Seq<(String, u64)>) -> Seq<(Seq<char>, nat)> {
    list.map_values(|item: (String, u64)| (item.0@, item.1 as nat))
}

proof fn lemma_insert_rank(
    list: Seq<(Seq<char>, nat)>,
    item: (Seq<char>, nat),
    at: nat,
)
    requires
        at <= list.len(),
        at > 0 ==> list[at - 1].1 >= item.1,
        forall|k: int| at <= k < list.len() ==> (#[trigger] list[k]).1 < item.1,
    ensures
        list.insert(at as int, item) == audit_summary::ranked_with(list, item),
    decreases list.len(),
{
    if at == list.len() {
        assert(list.insert(at as int, item) =~= list.push(item));
    } else {
        assert(list.last() == list[list.len() - 1]);
        lemma_insert_rank(list.drop_last(), item, at);
        assert(list.insert(at as int, item) =~= list.drop_last().insert(at as int, item).push(
            list.last(),
        ));
    }
}

fn insert_ranked(list: &mut Vec<(String, u64)>, name: &str, n: u64)
    ensures
        rank_models(final(list)@) == audit_summary::ranked_with(
            rank_models(old(list)@),
            (name@, n as nat),
        ),
{
    let ghost all = rank_models(list@);
    let mut at: usize = list.len();
    while at > 0 && list[at - 1].1 < n
        invariant
            at <= list@.len(),
            all == rank_models(list@),
            forall|k: int| at <= k < list@.len() ==> (#[trigger] all[k]).1 < n,
        decreases at,
    {
        assert(all[at - 1].1 == list@[at - 1].1);
        at = at - 1;
    }
    proof {
        if at > 0 {
            assert(all[at - 1].1 == list@[at - 1].1);
        }
        lemma_insert_rank(all, (name@, n as nat), at as nat);
    }
    list.insert(at, (copy_text(name), n));
    assert(rank_models(list@) =~= all.insert(at as int, (name@, n as nat)));
}

fn rank_phases(list: &Vec<(String, u64)>) -> (result: Vec<(String, u64)>)
    ensures
        rank_models(result@) == audit_summary::ranked(counted(entries::keyed(list@))),
{
    let ghost all = counted(entries::keyed(list@));
    let mut out: Vec<(String, u64)> = Vec::new();
    let mut i: usize = 0;
    assert(all.subrange(0, 0) =~= Seq::empty());
    assert(rank_models(out@) =~= Seq::empty());
    while i < list.len()
        invariant
            i <= list@.len(),
            all == counted(entries::keyed(list@)),
            rank_models(out@) == audit_summary::ranked(all.subrange(0, i as int)),
        decreases list@.len() - i,
    {
        proof {
            assert(entries::keyed(list@)[i as int] == (list@[i as int].0@, list@[i as int].1@));
            assert(all.subrange(0, i + 1).drop_last() =~= all.subrange(0, i as int));
            assert(all.subrange(0, i + 1).last() == all[i as int]);
        }
        insert_ranked(&mut out, list[i].0.as_str(), list[i].1);
        i = i + 1;
    }
    assert(all.subrange(0, i as int) =~= all);
    out
}

fn rank_types(list: &Vec<(String, TypeSummary)>) -> (result: Vec<(String, u64)>)
    ensures
        rank_models(result@) == audit_summary::ranked(type_files(entries::keyed(list@))),
{
    let ghost all = type_files(entries::keyed(list@));
    let mut out: Vec<(String, u64)> = Vec::new();
    let mut i: usize = 0;
    assert(all.subrange(0, 0) =~= Seq::empty());
    assert(rank_models(out@) =~= Seq::empty());
    while i < list.len()
        invariant
            i <= list@.len(),
            all == type_files(entries::keyed(list@)),
            rank_models(out@) == audit_summary::ranked(all.subrange(0, i as int)),
        decreases list@.len() - i,
    {
        proof {
            assert(entries::keyed(list@)[i as int] == (list@[i as int].0@, list@[i as int].1@));
            assert(all.subrange(0, i + 1).drop_last() =~= all.subrange(0, i as int));
            assert(all.subrange(0, i + 1).last() == all[i as int]);
        }
        insert_ranked(&mut out, list[i].0.as_str(), list[i].1.files);
        i = i + 1;
    }
    assert(all.subrange(0, i as int) =~= all);
    out
}

fn phases_text(r: &ConsolidatedReport) -> (result: String)
    ensures
        result@ == phases_section(r@),
{
    let list: Vec<(String, u64)> = rank_phases(&r.failure_phases);
    let ghost all = rank_models(list@);
    let mut out: String = copy_text("## Divergences by phase\n\n");
    push_text(&mut out, "| Phase | Count |\n");
    push_text(&mut out, "|---|---:|\n");
    let ghost start = out@;
    let mut i: usize = 0;
    assert(out@ =~= start + phase_rows(all, 0));
    while i < list.len()
        invariant
            i <= list@.len(),
            all == rank_models(list@),
            out@ == start + phase_rows(all, i as nat),
        decreases list@.len() - i,
    {
        assert(all[i as int] == (list@[i as int].0@, list@[i as int].1 as nat));
        push_text(&mut out, "| `");
        push_text(&mut out, list[i].0.as_str());
        push_text(&mut out, "` | ");
        push_text(&mut out, decimal_text(list[i].1).as_str());
        push_text(&mut out, " |\n");
        assert(out@ =~= start + phase_rows(all, (i + 1) as nat));
        i = i + 1;
    }
    out
}

fn push_type_row(out: &mut String, name: &str, t: TypeSummary)
    ensures
        final(out)@ == old(out)@ + type_row(name@, t),
{
    push_text(out, "| `");
    push_text(out, name);
    push_text(out, "` | ");
    push_text(out, decimal_text(t.files).as_str());
    push_text(out, " | ");
    push_text(out, decimal_text(t.ghostline_serialized).as_str());
    push_text(out, " | ");
    push_text(out, decimal_text(t.serialize_data_equal).as_str());
    push_text(out, " | ");
    push_text(out, decimal_text(t.ghostline_from_wolvenkit_exact_original).as_str());
    push_text(out, " | ");
    push_text(out, decimal_text(t.deserialize_data_equal).as_str());
    push_text(out, " |\n");
    assert(out@ =~= old(out)@ + type_row(name@, t));
}

fn types_text(r: &ConsolidatedReport) -> (result: String)
    ensures
        result@ == types_section(r@),
{
    let list: Vec<(String, u64)> = rank_types(&r.types);
    let ghost all = rank_models(list@);
    let ghost types = entries::keyed(r.types@);
    let mut out: String = copy_text("\n## Most common root types\n\n");
    push_text(
        &mut out,
        "| Root type | Files | Serialized | Serialize matches | Exact rebuilds | Semantic rebuilds |\n",
    );
    push_text(&mut out, "|---|---:|---:|---:|---:|---:|\n");
    let ghost start = out@;
    let shown: usize = if list.len() > SHOWN_TYPES {
        SHOWN_TYPES
    } else {
        list.len()
    };
    let mut i: usize = 0;
    assert(out@ =~= start + type_rows(all, types, 0));
    while i < shown
        invariant
            i <= shown <= list@.len(),
            all == rank_models(list@),
            types == entries::keyed(r.types@),
            out@ == start + type_rows(all, types, i as nat),
        decreases shown - i,
    {
        assert(all[i as int] == (list@[i as int].0@, list@[i as int].1 as nat));
        let name: &str = list[i].0.as_str();
        let counts: TypeSummary = audit_report::find_counts(&r.types, name);
        push_type_row(&mut out, name, counts);
        assert(out@ =~= start + type_rows(all, types, (i + 1) as nat));
        i = i + 1;
    }
    out
}

fn flatten(text: &str) -> (result: String)
    ensures
        result@ == flattened(text@),
{
    let chars: Vec<char> = chars_of(text);
    let mut out: Vec<char> = Vec::new();
    let mut i: usize = 0;
    while i < chars.len()
        invariant
            i <= chars@.len(),
            out@ =~= flattened(chars@).subrange(0, i as int),
        decreases chars@.len() - i,
    {
        let c: char = chars[i];
        out.push(
            if c == '\r' || c == '\n' || c == '|' {
                ' '
            } else {
                c
            },
        );
        i = i + 1;
    }
    assert(out@ =~= flattened(chars@));
    text_of(out.as_slice())
}

fn push_example(out: &mut String, e: &FailureExample)
    ensures
        final(out)@ == old(out)@ + example_line(e@),
{
    push_text(out, "- `");
    push_text(out, e.archive.as_str());
    push_text(out, "` / `");
    push_text(out, e.name_hash.as_str());
    push_text(out, "` / `");
    match &e.root_type {
        Some(name) => push_text(out, name.as_str()),
        None => push_text(out, "<unknown>"),
    }
    push_text(out, "`: ");
    push_text(out, flatten(e.detail.as_str()).as_str());
    push_text(out, "\n");
    assert(out@ =~= old(out)@ + example_line(e@));
}

fn push_examples(out: &mut String, examples: &Examples)
    ensures
        final(out)@ == old(out)@ + example_lines(examples@, examples@.len()),
{
    let ghost start = out@;
    let ghost all = examples@;
    let mut i: usize = 0;
    assert(out@ =~= start + example_lines(all, 0));
    while i < examples.list.len()
        invariant
            i <= examples.list@.len(),
            all == examples@,
            out@ == start + example_lines(all, i as nat),
        decreases examples.list@.len() - i,
    {
        assert(all[i as int] == examples.list@[i as int]@);
        push_example(out, &examples.list[i]);
        assert(out@ =~= start + example_lines(all, (i + 1) as nat));
        i = i + 1;
    }
}

fn examples_text(r: &ConsolidatedReport) -> (result: String)
    ensures
        result@ == example_sections(r@.examples, r@.examples.len()),
{
    let ghost all = r@.examples;
    let mut out: String = String::new();
    let mut i: usize = 0;
    assert(out@ =~= example_sections(all, 0));
    while i < r.examples.len()
        invariant
            i <= r.examples@.len(),
            all == r@.examples,
            out@ == example_sections(all, i as nat),
        decreases r.examples@.len() - i,
    {
        assert(all[i as int] == (r.examples@[i as int].0@, r.examples@[i as int].1@));
        push_text(&mut out, "### `");
        push_text(&mut out, r.examples[i].0.as_str());
        push_text(&mut out, "`\n\n");
        push_examples(&mut out, &r.examples[i].1);
        push_text(&mut out, "\n");
        assert(out@ =~= example_sections(all, (i + 1) as nat));
        i = i + 1;
    }
    out
}

/// Writes the page.
pub fn render_markdown(report: &ConsolidatedReport) -> (result: String)
    ensures
        result@ == page(report@),
{
    let mut out: String = totals_text(report);
    push_text(&mut out, phases_text(report).as_str());
    push_text(&mut out, types_text(report).as_str());
    push_text(&mut out, "\n## Representative divergences\n\n");
    push_text(&mut out, examples_text(report).as_str());
    out
}

} // verus!
