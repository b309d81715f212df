//! The audit of resources against another tool: what each resource counts as,
//! given what both tools made of it.

use crate::archive::ArchiveEntry;
use crate::audit_report;
use crate::audit_report::{add_part, count_type, merge_types, Summary, TypeSummary};
use crate::binary::read_u32_le;
use crate::difference;
use crate::difference::{first_difference, Difference, DifferenceModel};
use crate::entries;
use crate::kraken;
use crate::kraken::KrakenError;
use crate::number_text;
use crate::number_text::parse_unsigned;
use crate::red_types;
use crate::sequence::{part, to_vec};
use crate::text;
use crate::text::{chars_of, from_utf8_lossy, part_of, text_of};
use crate::value;
use crate::value::{copy_text, Value};
use vstd::prelude::*;

verus! {

/// How many bytes of a tool's words are kept.
pub const MAX_DIAGNOSTIC_BYTES: usize = 16384;

/// What went wrong with a resource.
pub ghost enum DetailModel {
    Text(Seq<char>),
    Difference(DifferenceModel),
}

/// A resource for which something went wrong.
pub ghost struct FailureModel {
    pub name_hash: Seq<char>,
    pub phase: Seq<char>,
    pub root_type: Option<Seq<char>>,
    pub detail: DetailModel,
}

/// What went wrong with a resource: in words, or a place at which two documents
/// differ.
#[derive(Debug, PartialEq, Eq)]
pub enum Detail {
    Text(String),
    Difference(Difference),
}

impl View for Detail {
    type V = DetailModel;

    open spec fn view(&self) -> DetailModel {
        match self {
            Detail::Text(words) => DetailModel::Text(words@),
            Detail::Difference(found) => DetailModel::Difference(found@),
        }
    }
}

/// A resource for which something went wrong.
#[derive(Debug, PartialEq, Eq)]
pub struct Failure {
    pub name_hash: String,
    pub phase: &'static str,
    pub root_type: Option<String>,
    pub detail: Detail,
}

/// A text, if there is one.
pub open spec fn optional_text(text: Option<String>) -> Option<Seq<char>> {
    match text {
        Some(text) => Some(text@),
        None => None,
    }
}

impl View for Failure {
    type V = FailureModel;

    open spec fn view(&self) -> FailureModel {
        FailureModel {
            name_hash: self.name_hash@,
            phase: self.phase@,
            root_type: optional_text(self.root_type),
            detail: self.detail@,
        }
    }
}

/// Failures as they are.
pub open spec fn failure_models(list: Seq<Failure>) -> Seq<FailureModel> {
    list.map_values(|failure: Failure| failure@)
}

/// What the other tool made of a resource.
pub ghost enum OracleModel {
    Missing,
    Invalid(Seq<char>),
    Document(value::Model),
}

/// What the other tool made of a resource: nothing, something that cannot be
/// read, or a document.
#[derive(Debug)]
pub enum Oracle {
    Missing,
    Invalid(String),
    Document(Value),
}

impl View for Oracle {
    type V = OracleModel;

    open spec fn view(&self) -> OracleModel {
        match self {
            Oracle::Missing => OracleModel::Missing,
            Oracle::Invalid(error) => OracleModel::Invalid(error@),
            Oracle::Document(document) => OracleModel::Document(document@),
        }
    }
}

/// What became of writing the other tool's document back.
pub ghost enum RebuildModel {
    Failed(Seq<char>),
    Exact,
    Different,
}

/// What became of writing the other tool's document back: nothing, the same
/// bytes, or other bytes.
#[derive(Debug)]
pub enum Rebuild {
    Failed(String),
    Exact,
    Different,
}

impl View for Rebuild {
    type V = RebuildModel;

    open spec fn view(&self) -> RebuildModel {
        match self {
            Rebuild::Failed(error) => RebuildModel::Failed(error@),
            Rebuild::Exact => RebuildModel::Exact,
            Rebuild::Different => RebuildModel::Different,
        }
    }
}

/// What this library made of a resource.
pub open spec fn own_model(own: Result<Value, String>) -> Result<value::Model, Seq<char>> {
    match own {
        Ok(document) => Ok(document@),
        Err(error) => Err(error@),
    }
}

/// The type of a document's root.
pub open spec fn type_of(document: value::Model) -> Option<Seq<char>> {
    match value::member(document, "Data"@) {
        None => None,
        Some(data) => match value::member(data, "RootChunk"@) {
            None => None,
            Some(root) => match value::member(root, "$type"@) {
                None => None,
                Some(found) => value::text_of(found),
            },
        },
    }
}

/// Finds the type of a document's root.
pub fn root_type(document: &Value) -> (result: Option<String>)
    ensures
        optional_text(result) == type_of(document@),
{
    match document.get("Data") {
        None => None,
        Some(data) => match data.get("RootChunk") {
            None => None,
            Some(root) => match root.get("$type") {
                None => None,
                Some(found) => match found.as_text() {
                    Some(text) => Some(copy_text(text)),
                    None => None,
                },
            },
        },
    }
}

/// The type of what the other tool made of a resource.
pub open spec fn oracle_type(oracle: OracleModel) -> Option<Seq<char>> {
    match oracle {
        OracleModel::Document(document) => type_of(document),
        _ => None,
    }
}

/// The name under which a type is counted.
pub open spec fn type_key(root: Option<Seq<char>>) -> Seq<char> {
    match root {
        Some(name) => name,
        None => "<unknown>"@,
    }
}

/// Where the data of two documents differ.
pub open spec fn data_difference(expected: value::Model, actual: value::Model) -> Option<
    DifferenceModel,
> {
    difference::difference(
        value::member(expected, "Data"@),
        value::member(actual, "Data"@),
        "$.Data"@,
    )
}

/// One or none.
pub open spec fn one_if(truth: bool) -> u64 {
    if truth {
        1
    } else {
        0
    }
}

/// What a resource counts as.
pub ghost struct OutcomeModel {
    pub summary: Summary,
    pub types: Seq<(Seq<char>, TypeSummary)>,
    pub failures: Seq<FailureModel>,
}

/// A failure of a resource.
pub open spec fn failed(
    hash: Seq<char>,
    phase: Seq<char>,
    root: Option<Seq<char>>,
    detail: DetailModel,
) -> Seq<FailureModel> {
    seq![FailureModel { name_hash: hash, phase, root_type: root, detail }]
}

/// What is wrong with what the other tool made of a resource.
pub open spec fn oracle_failures(hash: Seq<char>, oracle: OracleModel) -> Seq<FailureModel> {
    match oracle {
        OracleModel::Missing => failed(
            hash,
            "wolvenkit_serialize"@,
            None,
            DetailModel::Text("WolvenKit produced no JSON output"@),
        ),
        OracleModel::Invalid(error) => failed(
            hash,
            "wolvenkit_serialize_invalid_json"@,
            None,
            DetailModel::Text(error),
        ),
        OracleModel::Document(_) => Seq::empty(),
    }
}

/// What is wrong with what this library made of a resource.
pub open spec fn own_failures(
    hash: Seq<char>,
    oracle: OracleModel,
    own: Result<value::Model, Seq<char>>,
) -> Seq<FailureModel> {
    let root = oracle_type(oracle);
    match own {
        Err(error) => failed(hash, "ghostline_serialize"@, root, DetailModel::Text(error)),
        Ok(document) => match oracle {
            OracleModel::Document(expected) => match data_difference(expected, document) {
                None => Seq::empty(),
                Some(found) => failed(
                    hash,
                    "serialize_data_diff"@,
                    root,
                    DetailModel::Difference(found),
                ),
            },
            _ => Seq::empty(),
        },
    }
}

/// What is wrong with writing the other tool's document back.
pub open spec fn rebuild_failures(
    hash: Seq<char>,
    oracle: OracleModel,
    rebuild: RebuildModel,
) -> Seq<FailureModel> {
    let root = oracle_type(oracle);
    match (oracle, rebuild) {
        (OracleModel::Document(_), RebuildModel::Failed(error)) => failed(
            hash,
            "ghostline_deserialize_wolvenkit"@,
            root,
            DetailModel::Text(error),
        ),
        (OracleModel::Document(_), RebuildModel::Different) => failed(
            hash,
            "ghostline_deserialize_wolvenkit_binary_diff"@,
            root,
            DetailModel::Text("rebuilt binary differs from the vanilla template"@),
        ),
        _ => Seq::empty(),
    }
}

/// Whether both tools made the same data of a resource.
pub open spec fn data_equal(oracle: OracleModel, own: Result<value::Model, Seq<char>>) -> bool {
    match (oracle, own) {
        (OracleModel::Document(expected), Ok(document)) => data_difference(expected, document)
            is None,
        _ => false,
    }
}

/// What a resource counts as, given what both tools made of it.
pub open spec fn file_outcome(
    hash: u64,
    oracle: OracleModel,
    own: Result<value::Model, Seq<char>>,
    rebuild: RebuildModel,
) -> OutcomeModel {
    let name = hash_digits(hash as nat, 16);
    let read = oracle is Document;
    let equal = data_equal(oracle, own);
    let exact = read && rebuild is Exact;
    OutcomeModel {
        summary: Summary {
            wolvenkit_serialized: one_if(read),
            ghostline_serialized: one_if(own is Ok),
            serialize_data_equal: one_if(equal),
            ghostline_from_wolvenkit: one_if(read && !(rebuild is Failed)),
            ghostline_from_wolvenkit_exact_original: one_if(exact),
            deserialize_data_equal: one_if(exact),
            ..audit_report::nothing()
        },
        types: audit_report::with_count(
            Seq::empty(),
            type_key(oracle_type(oracle)),
            TypeSummary {
                files: 1,
                ghostline_serialized: one_if(own is Ok),
                serialize_data_equal: one_if(equal),
                ghostline_from_wolvenkit_exact_original: one_if(exact),
                deserialize_data_equal: one_if(exact),
            },
        ),
        failures: oracle_failures(name, oracle) + own_failures(name, oracle, own)
            + rebuild_failures(name, oracle, rebuild),
    }
}

/// A number as `n` hexadecimal digits.
pub open spec fn hash_digits(value: nat, n: nat) -> Seq<char>
    decreases n,
{
    if n == 0 {
        Seq::empty()
    } else {
        hash_digits(value / 16, (n - 1) as nat).push(red_types::hex_digit(value % 16))
    }
}

fn push_digits(chars: &mut Vec<char>, value: u64, n: usize)
    ensures
        final(chars)@ == old(chars)@ + hash_digits(value as nat, n as nat),
    decreases n,
{
    let ghost before = chars@;
    if n > 0 {
        push_digits(chars, value / 16, n - 1);
        chars.push(red_types::hex_char((value % 16) as u8));
    }
    assert(chars@ =~= before + hash_digits(value as nat, n as nat));
}

/// Writes a hash as hexadecimal digits.
pub fn hash_text(hash: u64) -> (result: String)
    ensures
        result@ == hash_digits(hash as nat, 16),
{
    let mut chars: Vec<char> = Vec::new();
    push_digits(&mut chars, hash, 16);
    assert(chars@ =~= hash_digits(hash as nat, 16));
    text_of(chars.as_slice())
}

/// What a resource, or all resources so far, count as.
#[derive(Debug)]
pub struct AuditState {
    pub summary: Summary,
    pub types: Vec<(String, TypeSummary)>,
    pub failures: Vec<Failure>,
}

impl View for AuditState {
    type V = OutcomeModel;

    open spec fn view(&self) -> OutcomeModel {
        OutcomeModel {
            summary: self.summary,
            types: entries::keyed(self.types@),
            failures: failure_models(self.failures@),
        }
    }
}

fn copy_optional(text: &Option<String>) -> (result: Option<String>)
    ensures
        optional_text(result) == optional_text(*text),
{
    match text {
        Some(text) => Some(copy_text(text.as_str())),
        None => None,
    }
}

fn push_failure(
    failures: &mut Vec<Failure>,
    hash: &str,
    phase: &'static str,
    root: &Option<String>,
    detail: Detail,
)
    ensures
        failure_models(final(failures)@) == failure_models(old(failures)@) + failed(
            hash@,
            phase@,
            optional_text(*root),
            detail@,
        ),
{
    let ghost before = failures@;
    let failure: Failure = Failure {
        name_hash: copy_text(hash),
        phase,
        root_type: copy_optional(root),
        detail,
    };
    let ghost content = failure@;
    failures.push(failure);
    assert(failure_models(failures@) =~= failure_models(before) + seq![content]);
}

fn count_one(truth: bool) -> (result: u64)
    ensures
        result == one_if(truth),
{
    if truth {
        1
    } else {
        0
    }
}

fn find_difference(expected: &Value, actual: &Value) -> (result: Option<Difference>)
    ensures
        difference::optional_difference(result) == data_difference(expected@, actual@),
{
    let left: Option<&Value> = expected.get("Data");
    let right: Option<&Value> = actual.get("Data");
    first_difference(left, right, "$.Data")
}

/// Counts a resource, given what both tools made of it.
pub fn audit_file(
    hash: u64,
    oracle: &Oracle,
    own: &Result<Value, String>,
    rebuild: &Rebuild,
) -> (result: AuditState)
    ensures
        result@ == file_outcome(hash, oracle@, own_model(*own), rebuild@),
{
    let name: String = hash_text(hash);
    let mut failures: Vec<Failure> = Vec::new();
    assert(failure_models(failures@) =~= Seq::empty());
    let root: Option<String> = match oracle {
        Oracle::Document(document) => root_type(document),
        _ => None,
    };
    let nothing: Option<String> = None;
    match oracle {
        Oracle::Missing => push_failure(
            &mut failures,
            name.as_str(),
            "wolvenkit_serialize",
            &nothing,
            Detail::Text(copy_text("WolvenKit produced no JSON output")),
        ),
        Oracle::Invalid(error) => push_failure(
            &mut failures,
            name.as_str(),
            "wolvenkit_serialize_invalid_json",
            &nothing,
            Detail::Text(copy_text(error.as_str())),
        ),
        Oracle::Document(_) => {},
    }
    assert(failure_models(failures@) =~= oracle_failures(name@, oracle@));
    let ghost first = failure_models(failures@);
    let mut equal: bool = false;
    match own {
        Err(error) => push_failure(
            &mut failures,
            name.as_str(),
            "ghostline_serialize",
            &root,
            Detail::Text(copy_text(error.as_str())),
        ),
        Ok(document) => {
            if let Oracle::Document(expected) = oracle {
                match find_difference(expected, document) {
                    None => {
                        equal = true;
                    },
                    Some(found) => push_failure(
                        &mut failures,
                        name.as_str(),
                        "serialize_data_diff",
                        &root,
                        Detail::Difference(found),
                    ),
                }
            }
        },
    }
    assert(failure_models(failures@) =~= first + own_failures(name@, oracle@, own_model(*own)));
    assert(equal == data_equal(oracle@, own_model(*own)));
    let ghost second = failure_models(failures@);
    let read: bool = matches!(oracle, Oracle::Document(_));
    let mut written: bool = false;
    let mut exact: bool = false;
    if read {
        match rebuild {
            Rebuild::Failed(error) => push_failure(
                &mut failures,
                name.as_str(),
                "ghostline_deserialize_wolvenkit",
                &root,
                Detail::Text(copy_text(error.as_str())),
            ),
            Rebuild::Exact => {
                written = true;
                exact = true;
            },
            Rebuild::Different => {
                written = true;
                push_failure(
                    &mut failures,
                    name.as_str(),
                    "ghostline_deserialize_wolvenkit_binary_diff",
                    &root,
                    Detail::Text(copy_text("rebuilt binary differs from the vanilla template")),
                );
            },
        }
    }
    assert(failure_models(failures@) =~= second + rebuild_failures(name@, oracle@, rebuild@));
    let key: String = match &root {
        Some(name) => copy_text(name.as_str()),
        None => copy_text("<unknown>"),
    };
    let mut types: Vec<(String, TypeSummary)> = Vec::new();
    assert(entries::keyed(types@) =~= Seq::empty());
    count_type(
        &mut types,
        key.as_str(),
        TypeSummary {
            files: 1,
            ghostline_serialized: count_one(own.is_ok()),
            serialize_data_equal: count_one(equal),
            ghostline_from_wolvenkit_exact_original: count_one(exact),
            deserialize_data_equal: count_one(exact),
        },
    );
    let summary: Summary = Summary {
        archive_entries: 0,
        cr2w_files: 0,
        extraction_failures: 0,
        wolvenkit_serialized: count_one(read),
        ghostline_serialized: count_one(own.is_ok()),
        serialize_data_equal: count_one(equal),
        ghostline_from_wolvenkit: count_one(written),
        ghostline_from_wolvenkit_exact_original: count_one(exact),
        wolvenkit_reserialized_ghostline: 0,
        deserialize_data_equal: count_one(exact),
    };
    AuditState { summary, types, failures }
}

/// What a rebuilt resource counts as, given what the other tool made of the
/// resource and of what was rebuilt. `kept` says whether the rebuilt file is
/// there.
pub open spec fn rebuilt_outcome(
    hash: Seq<char>,
    reference: OracleModel,
    rebuilt: OracleModel,
    kept: bool,
) -> OutcomeModel {
    let root = oracle_type(reference);
    let reading = match rebuilt {
        OracleModel::Document(_) => Seq::empty(),
        OracleModel::Invalid(error) => failed(
            hash,
            "wolvenkit_serialize_ghostline_rebuilt_invalid_json"@,
            root,
            DetailModel::Text(error),
        ),
        OracleModel::Missing => if kept {
            failed(
                hash,
                "wolvenkit_serialize_ghostline_rebuilt"@,
                root,
                DetailModel::Text("WolvenKit produced no JSON for ghostline's rebuilt binary"@),
            )
        } else {
            Seq::empty()
        },
    };
    let (equal, comparing) = match (reference, rebuilt) {
        (OracleModel::Document(expected), OracleModel::Document(actual)) => match data_difference(
            expected,
            actual,
        ) {
            None => (true, Seq::empty()),
            Some(found) => (
                false,
                failed(hash, "deserialize_data_diff"@, root, DetailModel::Difference(found)),
            ),
        },
        _ => (false, Seq::empty()),
    };
    OutcomeModel {
        summary: Summary {
            wolvenkit_reserialized_ghostline: one_if(rebuilt is Document),
            deserialize_data_equal: one_if(equal),
            ..audit_report::nothing()
        },
        types: if equal {
            audit_report::with_count(
                Seq::empty(),
                type_key(root),
                TypeSummary { deserialize_data_equal: 1, ..audit_report::no_files() },
            )
        } else {
            Seq::empty()
        },
        failures: reading + comparing,
    }
}

/// Counts a rebuilt resource, given what the other tool made of the resource
/// and of what was rebuilt.
pub fn audit_rebuilt(hash: &str, reference: &Oracle, rebuilt: &Oracle, kept: bool) -> (result:
    AuditState)
    ensures
        result@ == rebuilt_outcome(hash@, reference@, rebuilt@, kept),
{
    let mut failures: Vec<Failure> = Vec::new();
    assert(failure_models(failures@) =~= Seq::empty());
    let root: Option<String> = match reference {
        Oracle::Document(document) => root_type(document),
        _ => None,
    };
    match rebuilt {
        Oracle::Document(_) => {},
        Oracle::Invalid(error) => push_failure(
            &mut failures,
            hash,
            "wolvenkit_serialize_ghostline_rebuilt_invalid_json",
            &root,
            Detail::Text(copy_text(error.as_str())),
        ),
        Oracle::Missing => {
            if kept {
                push_failure(
                    &mut failures,
                    hash,
                    "wolvenkit_serialize_ghostline_rebuilt",
                    &root,
                    Detail::Text(
                        copy_text("WolvenKit produced no JSON for ghostline's rebuilt binary"),
                    ),
                );
            }
        },
    }
    let ghost reading = failure_models(failures@);
    let mut equal: bool = false;
    if let Oracle::Document(expected) = reference {
        if let Oracle::Document(actual) = rebuilt {
            match find_difference(expected, actual) {
                None => {
                    equal = true;
                },
                Some(found) => push_failure(
                    &mut failures,
                    hash,
                    "deserialize_data_diff",
                    &root,
                    Detail::Difference(found),
                ),
            }
        }
    }
    let ghost wanted = rebuilt_outcome(hash@, reference@, rebuilt@, kept);
    assert(failure_models(failures@) =~= wanted.failures);
    let mut types: Vec<(String, TypeSummary)> = Vec::new();
    assert(entries::keyed(types@) =~= Seq::empty());
    if equal {
        let key: String = match &root {
            Some(name) => copy_text(name.as_str()),
            None => copy_text("<unknown>"),
        };
        count_type(
            &mut types,
            key.as_str(),
            TypeSummary {
                files: 0,
                ghostline_serialized: 0,
                serialize_data_equal: 0,
                ghostline_from_wolvenkit_exact_original: 0,
                deserialize_data_equal: 1,
            },
        );
    }
    let summary: Summary = Summary {
        archive_entries: 0,
        cr2w_files: 0,
        extraction_failures: 0,
        wolvenkit_serialized: 0,
        ghostline_serialized: 0,
        serialize_data_equal: 0,
        ghostline_from_wolvenkit: 0,
        ghostline_from_wolvenkit_exact_original: 0,
        wolvenkit_reserialized_ghostline: count_one(matches!(rebuilt, Oracle::Document(_))),
        deserialize_data_equal: count_one(equal),
    };
    AuditState { summary, types, failures }
}

/// What a part counts as, added to what came before.
pub open spec fn with_outcome(state: OutcomeModel, outcome: OutcomeModel) -> OutcomeModel {
    OutcomeModel {
        summary: audit_report::with_part(state.summary, outcome.summary),
        types: audit_report::merged_types(
            state.types,
            outcome.types,
            false,
            outcome.types.len(),
        ),
        failures: state.failures + outcome.failures,
    }
}

impl AuditState {
    /// Starts with the entries of a shard, the resources staged from them, and
    /// those that could not be.
    pub fn new(entry_count: usize, staged: usize, failures: Vec<Failure>) -> (result: AuditState)
        ensures
            result@ == (OutcomeModel {
                summary: Summary {
                    archive_entries: entry_count as u64,
                    cr2w_files: staged as u64,
                    extraction_failures: failures@.len() as u64,
                    ..audit_report::nothing()
                },
                types: Seq::empty(),
                failures: failure_models(failures@),
            }),
    {
        let state: AuditState = AuditState {
            summary: Summary {
                archive_entries: entry_count as u64,
                cr2w_files: staged as u64,
                extraction_failures: failures.len() as u64,
                wolvenkit_serialized: 0,
                ghostline_serialized: 0,
                serialize_data_equal: 0,
                ghostline_from_wolvenkit: 0,
                ghostline_from_wolvenkit_exact_original: 0,
                wolvenkit_reserialized_ghostline: 0,
                deserialize_data_equal: 0,
            },
            types: Vec::new(),
            failures,
        };
        assert(entries::keyed(state.types@) =~= Seq::empty());
        state
    }

    /// Adds what a part counts as.
    pub fn add(&mut self, outcome: AuditState)
        ensures
            final(self)@ == with_outcome(old(self)@, outcome@),
    {
        let ghost before = self.failures@;
        let ghost added = outcome.failures@;
        add_part(&mut self.summary, &outcome.summary);
        merge_types(&mut self.types, &outcome.types, false);
        let mut rest: Vec<Failure> = outcome.failures;
        self.failures.append(&mut rest);
        assert(failure_models(self.failures@) =~= failure_models(before) + failure_models(added));
    }
}

/// The entries of an archive with one of some hashes, among the first `n`, each
/// as a range of its own.
pub open spec fn chosen_ranges(hashes: Seq<u64>, wanted: Seq<u64>, n: nat) -> Seq<(usize, usize)>
    decreases n,
{
    if n == 0 {
        Seq::empty()
    } else {
        let before = chosen_ranges(hashes, wanted, (n - 1) as nat);
        if wanted.contains(hashes[n - 1]) {
            before.push(((n - 1) as usize, n as usize))
        } else {
            before
        }
    }
}

/// The entries of an archive in shards of a size, from an entry on.
pub open spec fn shard_ranges(count: nat, size: nat, from: nat) -> Seq<(usize, usize)>
    decreases count - from,
{
    if from >= count || size == 0 {
        Seq::empty()
    } else {
        let end = if from + size < count {
            from + size
        } else {
            count
        };
        seq![(from as usize, end as usize)] + shard_ranges(count, size, end)
    }
}

/// The hashes of entries.
pub open spec fn entry_hashes(list: Seq<ArchiveEntry>) -> Seq<u64> {
    list.map_values(|entry: ArchiveEntry| entry.name_hash)
}

fn has_hash(wanted: &Vec<u64>, hash: u64) -> (result: bool)
    ensures
        result == wanted@.contains(hash),
{
    let mut i: usize = 0;
    while i < wanted.len()
        invariant
            i <= wanted@.len(),
            forall|k: int| 0 <= k < i ==> wanted@[k] != hash,
        decreases wanted@.len() - i,
    {
        if wanted[i] == hash {
            assert(wanted@[i as int] == hash);
            return true;
        }
        i = i + 1;
    }
    false
}

/// Divides the entries of an archive: into shards of a size, or into the
/// entries with one of some hashes.
pub fn entry_ranges(list: &Vec<ArchiveEntry>, hashes: &Vec<u64>, shard_size: usize) -> (result: Vec<
    (usize, usize),
>)
    requires
        shard_size > 0,
    ensures
        result@ == (if hashes@.len() == 0 {
            shard_ranges(list@.len(), shard_size as nat, 0)
        } else {
            chosen_ranges(entry_hashes(list@), hashes@, list@.len())
        }),
{
    let mut ranges: Vec<(usize, usize)> = Vec::new();
    let count: usize = list.len();
    if hashes.len() == 0 {
        let mut from: usize = 0;
        while from < count
            invariant
                from <= count == list@.len(),
                shard_size > 0,
                ranges@ + shard_ranges(count as nat, shard_size as nat, from as nat)
                    == shard_ranges(count as nat, shard_size as nat, 0),
            decreases count - from,
        {
            let end: usize = if shard_size < count - from {
                from + shard_size
            } else {
                count
            };
            let ghost before = ranges@;
            ranges.push((from, end));
            assert(ranges@ + shard_ranges(count as nat, shard_size as nat, end as nat) =~= before
                + shard_ranges(count as nat, shard_size as nat, from as nat));
            from = end;
        }
        assert(ranges@ =~= ranges@ + shard_ranges(count as nat, shard_size as nat, from as nat));
        return ranges;
    }
    let ghost all = entry_hashes(list@);
    let mut i: usize = 0;
    while i < count
        invariant
            i <= count == list@.len(),
            all == entry_hashes(list@),
            ranges@ == chosen_ranges(all, hashes@, i as nat),
        decreases count - i,
    {
        assert(all[i as int] == list@[i as int].name_hash);
        if has_hash(hashes, list[i].name_hash) {
            ranges.push((i, i + 1));
        }
        i = i + 1;
    }
    ranges
}

/// The shards of an archive cover its entries without a gap: each entry is in
/// one of them.
pub proof fn law_shards_cover(count: nat, size: nat, from: nat, at: nat)
    requires
        size > 0,
        from <= at < count <= usize::MAX,
    ensures
        exists|i: int|
            0 <= i < shard_ranges(count, size, from).len() && (#[trigger] shard_ranges(
                count,
                size,
                from,
            )[i]).0 <= at < shard_ranges(count, size, from)[i].1,
    decreases count - from,
{
    let end = if from + size < count {
        from + size
    } else {
        count
    };
    let all = shard_ranges(count, size, from);
    if at < end {
        assert(all[0].0 <= at < all[0].1);
    } else {
        law_shards_cover(count, size, end, at);
        let rest = shard_ranges(count, size, end);
        let i = choose|i: int| 0 <= i < rest.len() && (#[trigger] rest[i]).0 <= at < rest[i].1;
        assert(all[i + 1] == rest[i]);
    }
}

/// Whether a character is a letter of ASCII.
pub open spec fn is_letter(c: char) -> bool {
    ('a' <= c && c <= 'z') || ('A' <= c && c <= 'Z')
}

/// What a hexadecimal digit stands for.
pub open spec fn hex_value(c: char) -> Option<nat> {
    if '0' <= c && c <= '9' {
        Some((c as nat - 48) as nat)
    } else if 'a' <= c && c <= 'f' {
        Some((c as nat - 87) as nat)
    } else if 'A' <= c && c <= 'F' {
        Some((c as nat - 55) as nat)
    } else {
        None
    }
}

/// What hexadecimal digits stand for.
pub open spec fn hex_number(digits: Seq<char>) -> Option<nat>
    decreases digits.len(),
{
    if digits.len() == 0 {
        Some(0)
    } else {
        match (hex_number(digits.drop_last()), hex_value(digits.last())) {
            (Some(front), Some(last)) => Some(16 * front + last),
            _ => None,
        }
    }
}

/// What a text says as a hexadecimal number of 64 bits: digits, with or without
/// a plus sign before them.
pub open spec fn hexadecimal(text: Seq<char>) -> Option<nat> {
    let digits = if text.len() > 0 && text[0] == '+' {
        text.subrange(1, text.len() as int)
    } else {
        text
    };
    if digits.len() == 0 {
        None
    } else {
        match hex_number(digits) {
            Some(number) if number <= u64::MAX => Some(number),
            _ => None,
        }
    }
}

/// What a text says as a hash: a hexadecimal number where it starts with `0x`
/// or holds a letter, else a decimal one.
pub open spec fn hash_of(text: Seq<char>) -> Option<nat> {
    if text.len() >= 2 && text[0] == '0' && (text[1] == 'x' || text[1] == 'X') {
        hexadecimal(text.subrange(2, text.len() as int))
    } else if exists|i: int| 0 <= i < text.len() && is_letter(#[trigger] text[i]) {
        hexadecimal(text)
    } else {
        number_text::unsigned_value(text, u64::MAX as nat)
    }
}

fn digit_of(c: char) -> (result: Option<u64>)
    ensures
        match hex_value(c) {
            Some(n) => result matches Some(r) && r == n && n < 16,
            None => result is None,
        },
{
    if '0' <= c && c <= '9' {
        Some(c as u64 - 48)
    } else if 'a' <= c && c <= 'f' {
        Some(c as u64 - 87)
    } else if 'A' <= c && c <= 'F' {
        Some(c as u64 - 55)
    } else {
        None
    }
}

proof fn lemma_hex_grows(digits: Seq<char>, n: nat)
    requires
        n <= digits.len(),
    ensures
        hex_number(digits.subrange(0, n as int)) is None ==> hex_number(digits) is None,
        hex_number(digits.subrange(0, n as int)) matches Some(a) ==> (hex_number(
            digits,
        ) matches Some(b) ==> a <= b),
    decreases digits.len() - n,
{
    if n == digits.len() {
        assert(digits.subrange(0, n as int) =~= digits);
    } else {
        assert(digits.subrange(0, (n + 1) as int).drop_last() =~= digits.subrange(0, n as int));
        lemma_hex_grows(digits, n + 1);
    }
}

#[verifier::loop_isolation(false)]
fn parse_hexadecimal(text: &[char]) -> (result: Option<u64>)
    ensures
        match hexadecimal(text@) {
            Some(n) => result matches Some(r) && r == n,
            None => result is None,
        },
{
    let from: usize = if text.len() > 0 && text[0] == '+' {
        1
    } else {
        0
    };
    let digits: Vec<char> = part_of(text, from, text.len());
    assert(from == 0 ==> digits@ =~= text@);
    if digits.len() == 0 {
        return None;
    }
    let mut value: u64 = 0;
    let mut i: usize = 0;
    assert(digits@.subrange(0, 0) =~= Seq::empty());
    while i < digits.len()
        invariant
            i <= digits@.len(),
            hex_number(digits@.subrange(0, i as int)) == Some(value as nat),
        decreases digits@.len() - i,
    {
        proof {
            assert(digits@.subrange(0, i + 1).drop_last() =~= digits@.subrange(0, i as int));
            lemma_hex_grows(digits@, (i + 1) as nat);
        }
        match digit_of(digits[i]) {
            None => return None,
            Some(digit) => {
                if value > (u64::MAX - digit) / 16 {
                    return None;
                }
                value = 16 * value + digit;
            },
        }
        i = i + 1;
    }
    assert(digits@.subrange(0, i as int) =~= digits@);
    Some(value)
}

/// Reads a hash that has no white space around it.
pub fn parse_trimmed_hash(text: &[char]) -> (result: Option<u64>)
    ensures
        match hash_of(text@) {
            Some(n) => result matches Some(r) && r == n,
            None => result is None,
        },
{
    if text.len() >= 2 && text[0] == '0' && (text[1] == 'x' || text[1] == 'X') {
        return parse_hexadecimal(part_of(text, 2, text.len()).as_slice());
    }
    let mut i: usize = 0;
    while i < text.len()
        invariant
            i <= text@.len(),
            !(text@.len() >= 2 && text@[0] == '0' && (text@[1] == 'x' || text@[1] == 'X')),
            forall|k: int| 0 <= k < i ==> !is_letter(#[trigger] text@[k]),
        decreases text@.len() - i,
    {
        let c: char = text[i];
        if ('a' <= c && c <= 'z') || ('A' <= c && c <= 'Z') {
            assert(is_letter(text@[i as int]));
            return parse_hexadecimal(text);
        }
        i = i + 1;
    }
    parse_unsigned(text, u64::MAX)
}

/// Reads a hash, decimal or hexadecimal.
pub fn parse_hash(text: &str) -> (result: Option<u64>)
    ensures
        match hash_of(text::trimmed(text@)) {
            Some(n) => result matches Some(r) && r == n,
            None => result is None,
        },
{
    let trimmed: String = text::trim(text);
    let chars: Vec<char> = chars_of(trimmed.as_str());
    parse_trimmed_hash(chars.as_slice())
}

/// The end of a tool's words.
pub open spec fn tail(bytes: Seq<u8>) -> Seq<u8> {
    if bytes.len() > MAX_DIAGNOSTIC_BYTES {
        bytes.subrange(bytes.len() - MAX_DIAGNOSTIC_BYTES, bytes.len() as int)
    } else {
        bytes
    }
}

/// Keeps the end of a tool's words.
pub fn tail_text(bytes: &[u8]) -> (result: String)
    ensures
        result@ == text::readable_text(tail(bytes@)),
{
    let from: usize = if bytes.len() > MAX_DIAGNOSTIC_BYTES {
        bytes.len() - MAX_DIAGNOSTIC_BYTES
    } else {
        0
    };
    let end: &[u8] = part(bytes, from, bytes.len());
    assert(end@ =~= tail(bytes@));
    from_utf8_lossy(end)
}

/// Whether bytes start like a resource.
pub open spec fn starts_resource(bytes: Seq<u8>) -> bool {
    bytes.len() >= 4 && bytes[0] == 0x43 && bytes[1] == 0x52 && bytes[2] == 0x32 && bytes[3] == 0x57
}

fn is_resource(bytes: &[u8]) -> (result: bool)
    ensures
        result == starts_resource(bytes@),
{
    bytes.len() >= 4 && bytes[0] == 0x43 && bytes[1] == 0x52 && bytes[2] == 0x32 && bytes[3] == 0x57
}

/// The resource in the first segment of a file, if there is one: as it stands,
/// or decoded.
pub open spec fn main_resource(segment: Seq<u8>) -> Result<Option<Seq<u8>>, KrakenError> {
    if starts_resource(segment) {
        Ok(Some(segment))
    } else if segment.len() < 8 || !crate::codec_reader::packed(segment) {
        Ok(None)
    } else {
        match kraken::decoder::decoded(
            segment.subrange(8, segment.len() as int),
            crate::cr2w::field(segment, 4, 4),
        ) {
            Err(error) => Err(error),
            Ok(bytes) => if starts_resource(bytes) {
                Ok(Some(bytes))
            } else {
                Ok(None)
            },
        }
    }
}

/// Finds the resource in the first segment of a file, if there is one.
pub fn read_main_if_cr2w(segment: &[u8]) -> (result: Result<Option<Vec<u8>>, KrakenError>)
    ensures
        match main_resource(segment@) {
            Ok(Some(bytes)) => result matches Ok(Some(r)) && r@ == bytes,
            Ok(None) => result matches Ok(None),
            Err(error) => result matches Err(e) && e == error,
        },
{
    if is_resource(segment) {
        return Ok(Some(to_vec(segment)));
    }
    if segment.len() < 8 || !crate::codec_reader::is_packed(segment) {
        return Ok(None);
    }
    let declared: usize = match read_u32_le(segment, 4) {
        Some(declared) => declared as usize,
        None => return Ok(None),
    };
    match kraken::decode(part(segment, 8, segment.len()), declared) {
        Err(error) => Err(error),
        Ok(bytes) => if is_resource(bytes.as_slice()) {
            Ok(Some(bytes))
        } else {
            Ok(None)
        },
    }
}

} // verus!
