//! Many audit reports as one, and that one as a page of Markdown.

use crate::audit_report;
use crate::audit_report::{count, merge_summary, merge_types, Summary, TypeSummary};
use crate::entries;
use crate::entries::{position, set_value};
use crate::number_text;
use crate::number_text::wide_decimal_chars;
use crate::text::{chars_of, part_of, push_text, text_of};
use crate::value::copy_text;
use vstd::prelude::*;

verus! {

/// How many examples are shown of a phase.
pub const EXAMPLES_PER_PHASE: usize = 5;

/// How many characters are shown of an example.
pub const MAX_EXAMPLE_CHARS: usize = 240;

/// How many types are shown.
pub const SHOWN_TYPES: usize = 50;

/// A failure that a report tells of.
pub ghost struct FailureModel {
    pub name_hash: Seq<char>,
    pub phase: Seq<char>,
    pub root_type: Option<Seq<char>>,
    pub detail: Seq<char>,
}

/// A failure that a report tells of.
#[derive(Debug)]
pub struct ShardFailure {
    pub name_hash: String,
    pub phase: String,
    pub root_type: Option<String>,
    pub detail: String,
}

impl View for ShardFailure {
    type V = FailureModel;

    open spec fn view(&self) -> FailureModel {
        FailureModel {
            name_hash: self.name_hash@,
            phase: self.phase@,
            root_type: crate::audit::optional_text(self.root_type),
            detail: self.detail@,
        }
    }
}

/// A report.
pub ghost struct ShardModel {
    pub archive: Seq<char>,
    pub summary: Summary,
    pub types: Seq<(Seq<char>, TypeSummary)>,
    pub failures: Seq<FailureModel>,
}

/// A report on a part of an archive.
#[derive(Debug)]
pub struct ShardReport {
    pub archive: String,
    pub summary: Summary,
    pub types: Vec<(String, TypeSummary)>,
    pub failures: Vec<ShardFailure>,
}

impl View for ShardReport {
    type V = ShardModel;

    open spec fn view(&self) -> ShardModel {
        ShardModel {
            archive: self.archive@,
            summary: self.summary,
            types: entries::keyed(self.types@),
            failures: self.failures@.map_values(|failure: ShardFailure| failure@),
        }
    }
}

/// An example of a failure.
pub ghost struct ExampleModel {
    pub archive: Seq<char>,
    pub name_hash: Seq<char>,
    pub root_type: Option<Seq<char>>,
    pub detail: Seq<char>,
}

/// An example of a failure.
#[derive(Debug)]
pub struct FailureExample {
    pub archive: String,
    pub name_hash: String,
    pub root_type: Option<String>,
    pub detail: String,
}

impl View for FailureExample {
    type V = ExampleModel;

    open spec fn view(&self) -> ExampleModel {
        ExampleModel {
            archive: self.archive@,
            name_hash: self.name_hash@,
            root_type: crate::audit::optional_text(self.root_type),
            detail: self.detail@,
        }
    }
}

/// The examples of a phase.
#[derive(Debug)]
pub struct Examples {
    pub list: Vec<FailureExample>,
}

impl View for Examples {
    type V = Seq<ExampleModel>;

    open spec fn view(&self) -> Seq<ExampleModel> {
        self.list@.map_values(|example: FailureExample| example@)
    }
}

/// Many reports as one.
pub ghost struct ReportModel {
    pub shard_reports: nat,
    pub totals: Summary,
    pub archives: Seq<(Seq<char>, Summary)>,
    pub failure_phases: Seq<(Seq<char>, u64)>,
    pub types: Seq<(Seq<char>, TypeSummary)>,
    pub examples: Seq<(Seq<char>, Seq<ExampleModel>)>,
}

/// Many reports as one: counts in all, by archive, by phase of failures and by
/// type, with examples of failures.
#[derive(Debug)]
pub struct ConsolidatedReport {
    pub shard_reports: usize,
    pub totals: Summary,
    pub archives: Vec<(String, Summary)>,
    pub failure_phases: Vec<(String, u64)>,
    pub types: Vec<(String, TypeSummary)>,
    pub examples: Vec<(String, Examples)>,
}

impl View for ConsolidatedReport {
    type V = ReportModel;

    open spec fn view(&self) -> ReportModel {
        ReportModel {
            shard_reports: self.shard_reports as nat,
            totals: self.totals,
            archives: entries::keyed(self.archives@),
            failure_phases: entries::keyed(self.failure_phases@),
            types: entries::keyed(self.types@),
            examples: entries::keyed(self.examples@),
        }
    }
}

/// A text cut to a number of characters, with a mark where it was cut.
pub open spec fn truncated(text: Seq<char>, maximum: nat) -> Seq<char> {
    if text.len() > maximum {
        text.subrange(0, maximum as int).push('\u{2026}')
    } else {
        text
    }
}

/// Cuts a text to a number of characters.
pub fn truncate(text: &str, maximum: usize) -> (result: String)
    ensures
        result@ == truncated(text@, maximum as nat),
{
    let chars: Vec<char> = chars_of(text);
    if chars.len() > maximum {
        let mut short: Vec<char> = part_of(chars.as_slice(), 0, maximum);
        short.push('\u{2026}');
        text_of(short.as_slice())
    } else {
        copy_text(text)
    }
}

/// A failure counted under its phase, and shown as long as there are few
/// examples.
pub open spec fn with_failure(
    report: ReportModel,
    archive: Seq<char>,
    failure: FailureModel,
) -> ReportModel {
    let met = match entries::find(report.failure_phases, failure.phase) {
        Some(n) => n,
        None => 0,
    };
    let shown = match entries::find(report.examples, failure.phase) {
        Some(list) => list,
        None => Seq::empty(),
    };
    let example = ExampleModel {
        archive,
        name_hash: failure.name_hash,
        root_type: failure.root_type,
        detail: truncated(failure.detail, MAX_EXAMPLE_CHARS as nat),
    };
    ReportModel {
        failure_phases: entries::put(
            report.failure_phases,
            failure.phase,
            audit_report::total(met, 1),
        ),
        examples: entries::put(
            report.examples,
            failure.phase,
            if shown.len() < EXAMPLES_PER_PHASE {
                shown.push(example)
            } else {
                shown
            },
        ),
        ..report
    }
}

/// The first `n` failures counted.
pub open spec fn with_failures(
    report: ReportModel,
    archive: Seq<char>,
    failures: Seq<FailureModel>,
    n: nat,
) -> ReportModel
    decreases n,
{
    if n == 0 {
        report
    } else {
        with_failure(
            with_failures(report, archive, failures, (n - 1) as nat),
            archive,
            failures[n - 1],
        )
    }
}

/// A report added to others.
pub open spec fn with_shard(report: ReportModel, shard: ShardModel) -> ReportModel {
    let own = match entries::find(report.archives, shard.archive) {
        Some(summary) => summary,
        None => audit_report::nothing(),
    };
    let counted = ReportModel {
        totals: audit_report::merged(report.totals, shard.summary),
        archives: entries::put(
            report.archives,
            shard.archive,
            audit_report::merged(own, shard.summary),
        ),
        types: audit_report::merged_types(report.types, shard.types, true, shard.types.len()),
        ..report
    };
    with_failures(counted, shard.archive, shard.failures, shard.failures.len())
}

/// Reports as they are.
pub open spec fn shard_models(shards: Seq<ShardReport>) -> Seq<ShardModel> {
    shards.map_values(|shard: ShardReport| shard@)
}

/// The first `n` reports as one.
pub open spec fn consolidated(shards: Seq<ShardModel>, n: nat) -> ReportModel
    decreases n,
{
    if n == 0 {
        ReportModel {
            shard_reports: shards.len(),
            totals: audit_report::nothing(),
            archives: Seq::empty(),
            failure_phases: Seq::empty(),
            types: Seq::empty(),
            examples: Seq::empty(),
        }
    } else {
        with_shard(consolidated(shards, (n - 1) as nat), shards[n - 1])
    }
}

fn copy_optional(text: &Option<String>) -> (result: Option<String>)
    ensures
        crate::audit::optional_text(result) == crate::audit::optional_text(*text),
{
    match text {
        Some(text) => Some(copy_text(text.as_str())),
        None => None,
    }
}

fn copy_example(example: &FailureExample) -> (result: FailureExample)
    ensures
        result@ == example@,
{
    FailureExample {
        archive: copy_text(example.archive.as_str()),
        name_hash: copy_text(example.name_hash.as_str()),
        root_type: copy_optional(&example.root_type),
        detail: copy_text(example.detail.as_str()),
    }
}

fn copy_examples(examples: &Examples) -> (result: Examples)
    ensures
        result@ == examples@,
{
    let mut list: Vec<FailureExample> = Vec::new();
    let mut i: usize = 0;
    while i < examples.list.len()
        invariant
            i <= examples.list@.len(),
            list@.len() == i,
            forall|k: int| 0 <= k < i ==> (#[trigger] list@[k])@ == examples.list@[k]@,
        decreases examples.list@.len() - i,
    {
        list.push(copy_example(&examples.list[i]));
        i = i + 1;
    }
    let copy: Examples = Examples { list };
    assert(copy@ =~= examples@);
    copy
}

fn add_failure(report: &mut ConsolidatedReport, archive: &str, failure: &ShardFailure)
    ensures
        final(report)@ == with_failure(old(report)@, archive@, failure@),
{
    let phase: &str = failure.phase.as_str();
    let met: u64 = match position(&report.failure_phases, phase) {
        Some(at) => {
            assert(entries::keyed(report.failure_phases@)[at as int].1
                == report.failure_phases@[at as int].1);
            report.failure_phases[at].1
        },
        None => 0,
    };
    set_value(&mut report.failure_phases, copy_text(phase), count(met, 1));
    let mut shown: Examples = match position(&report.examples, phase) {
        Some(at) => {
            assert(entries::keyed(report.examples@)[at as int].1 == report.examples@[at as int].1@);
            copy_examples(&report.examples[at].1)
        },
        None => {
            let none: Examples = Examples { list: Vec::new() };
            assert(none@ =~= Seq::empty());
            none
        },
    };
    let ghost before = shown@;
    if shown.list.len() < EXAMPLES_PER_PHASE {
        let example: FailureExample = FailureExample {
            archive: copy_text(archive),
            name_hash: copy_text(failure.name_hash.as_str()),
            root_type: copy_optional(&failure.root_type),
            detail: truncate(failure.detail.as_str(), MAX_EXAMPLE_CHARS),
        };
        let ghost content = example@;
        shown.list.push(example);
        assert(shown@ =~= before.push(content));
    }
    set_value(&mut report.examples, copy_text(phase), shown);
}

fn add_shard(report: &mut ConsolidatedReport, shard: &ShardReport)
    ensures
        final(report)@ == with_shard(old(report)@, shard@),
{
    let archive: &str = shard.archive.as_str();
    merge_summary(&mut report.totals, &shard.summary);
    let mut own: Summary = match position(&report.archives, archive) {
        Some(at) => {
            assert(entries::keyed(report.archives@)[at as int].1 == report.archives@[at as int].1);
            report.archives[at].1
        },
        None => Summary::default(),
    };
    merge_summary(&mut own, &shard.summary);
    set_value(&mut report.archives, copy_text(archive), own);
    merge_types(&mut report.types, &shard.types, true);
    let ghost counted = report@;
    let ghost failures = shard@.failures;
    let mut i: usize = 0;
    while i < shard.failures.len()
        invariant
            i <= shard.failures@.len(),
            failures == shard@.failures,
            archive@ == shard.archive@,
            report@ == with_failures(counted, archive@, failures, i as nat),
        decreases shard.failures@.len() - i,
    {
        assert(failures[i as int] == shard.failures@[i as int]@);
        add_failure(report, archive, &shard.failures[i]);
        i = i + 1;
    }
}

/// Puts many reports together.
pub fn consolidate(shards: &Vec<ShardReport>) -> (result: ConsolidatedReport)
    ensures
        result@ == consolidated(shard_models(shards@), shards@.len()),
{
    let ghost all = shard_models(shards@);
    let mut report: ConsolidatedReport = ConsolidatedReport {
        shard_reports: shards.len(),
        totals: Summary::default(),
        archives: Vec::new(),
        failure_phases: Vec::new(),
        types: Vec::new(),
        examples: Vec::new(),
    };
    assert(report@.archives =~= Seq::empty());
    assert(report@.failure_phases =~= Seq::empty());
    assert(report@.types =~= Seq::empty());
    assert(report@.examples =~= Seq::empty());
    let mut i: usize = 0;
    while i < shards.len()
        invariant
            i <= shards@.len(),
            all == shard_models(shards@),
            report@ == consolidated(all, i as nat),
        decreases shards@.len() - i,
    {
        assert(all[i as int] == shards@[i as int]@);
        add_shard(&mut report, &shards[i]);
        i = i + 1;
    }
    report
}

/// A share in percent, rounded to two digits behind the point.
pub open spec fn share(numerator: nat, denominator: nat) -> Seq<char> {
    if denominator == 0 {
        "n/a"@
    } else {
        let hundredths = (numerator * 10_000 + denominator / 2) / denominator;
        number_text::decimal(hundredths / 100) + "."@ + (if hundredths % 100 < 10 {
            "0"@
        } else {
            Seq::empty()
        }) + number_text::decimal(hundredths % 100) + "%"@
    }
}

/// Writes a share in percent.
pub fn percent(numerator: u64, denominator: u64) -> (result: String)
    ensures
        result@ == share(numerator as nat, denominator as nat),
{
    if denominator == 0 {
        return copy_text("n/a");
    }
    let hundredths: u128 = (numerator as u128 * 10_000 + denominator as u128 / 2)
        / denominator as u128;
    let rest: u128 = hundredths % 100;
    let mut out: String = text_of(wide_decimal_chars(hundredths / 100).as_slice());
    push_text(&mut out, ".");
    if rest < 10 {
        push_text(&mut out, "0");
    }
    push_text(&mut out, text_of(wide_decimal_chars(rest).as_slice()).as_str());
    push_text(&mut out, "%");
    assert(out@ =~= share(numerator as nat, denominator as nat));
    out
}

/// An item put into a list behind all with at least its count.
pub open spec fn ranked_with(list: Seq<(Seq<char>, nat)>, item: (Seq<char>, nat)) -> Seq<
    (Seq<char>, nat),
>
    decreases list.len(),
{
    if list.len() == 0 || list.last().1 >= item.1 {
        list.push(item)
    } else {
        ranked_with(list.drop_last(), item).push(list.last())
    }
}

/// A list by falling count; those with the same count stay in their order.
pub open spec fn ranked(list: Seq<(Seq<char>, nat)>) -> Seq<(Seq<char>, nat)>
    decreases list.len(),
{
    if list.len() == 0 {
        Seq::empty()
    } else {
        ranked_with(ranked(list.drop_last()), list.last())
    }
}

/// Whether counts fall, or stay.
pub open spec fn falling(list: Seq<(Seq<char>, nat)>) -> bool {
    forall|i: int, j: int| 0 <= i < j < list.len() ==> (#[trigger] list[i]).1 >= (#[trigger] list[j]).1
}

proof fn lemma_ranked_with(list: Seq<(Seq<char>, nat)>, item: (Seq<char>, nat))
    requires
        falling(list),
    ensures
        falling(ranked_with(list, item)),
        ranked_with(list, item).len() == list.len() + 1,
        ranked_with(list, item).to_multiset() == list.to_multiset().insert(item),
        forall|i: int|
            0 <= i < list.len() + 1 ==> (#[trigger] ranked_with(list, item)[i]).1 >= item.1
                || ranked_with(list, item)[i].1 >= (if list.len() > 0 {
                list.last().1
            } else {
                0
            }),
    decreases list.len(),
{
    broadcast use vstd::seq_lib::group_to_multiset_ensures;

    if list.len() == 0 || list.last().1 >= item.1 {
    } else {
        let front = list.drop_last();
        lemma_ranked_with(front, item);
        assert(front.push(list.last()) =~= list);
        let placed = ranked_with(front, item);
        assert forall|i: int| 0 <= i < placed.len() implies (#[trigger] placed[i]).1
            >= list.last().1 by {
            if front.len() > 0 {
                assert(list[front.len() - 1].1 >= list[list.len() - 1].1);
            }
        }
    }
}

/// Ranking keeps the items, and puts them by falling count.
pub proof fn law_ranked(list: Seq<(Seq<char>, nat)>)
    ensures
        falling(ranked(list)),
        ranked(list).to_multiset() == list.to_multiset(),
    decreases list.len(),
{
    broadcast use vstd::seq_lib::group_to_multiset_ensures;

    if list.len() > 0 {
        law_ranked(list.drop_last());
        lemma_ranked_with(ranked(list.drop_last()), list.last());
        assert(list.drop_last().push(list.last()) =~= list);
    } else {
        assert(ranked(list) =~= list);
    }
}

} // verus!
