//! Batches of export jobs: progress, outcomes and outputs that collide.

use crate::text;
use crate::text::{chars_of, push_text, same_text, text_of, to_lowercase};
use crate::value::copy_text;
use vstd::prelude::*;

verus! {

/// Whether the progress of a batch is worth a line: at the first, the last and
/// each hundredth job.
pub open spec fn is_milestone(position: nat, job_count: nat) -> bool {
    position == 1 || position == job_count || position % 100 == 0
}

/// Tests whether the progress of a batch is worth a line.
pub fn should_report_batch_progress(position: usize, job_count: usize) -> (result: bool)
    ensures
        result == is_milestone(position as nat, job_count as nat),
{
    position == 1 || position == job_count || position % 100 == 0
}

/// The errors of a job: one that stops it, and one in its materials only.
pub ghost struct ErrorsModel {
    pub error: Option<Seq<char>>,
    pub material_error: Option<Seq<char>>,
}

/// The errors of a job: one that stops it, and one in its materials only.
#[derive(Debug, PartialEq, Eq)]
pub struct MeshExportBatchErrors {
    pub error: Option<String>,
    pub material_error: Option<String>,
}

/// A text, if there is one.
pub open spec fn optional_text(text: Option<String>) -> Option<Seq<char>> {
    match text {
        Some(text) => Some(text@),
        None => None,
    }
}

impl View for MeshExportBatchErrors {
    type V = ErrorsModel;

    open spec fn view(&self) -> ErrorsModel {
        ErrorsModel {
            error: optional_text(self.error),
            material_error: optional_text(self.material_error),
        }
    }
}

impl Default for MeshExportBatchErrors {
    fn default() -> (result: Self)
        ensures
            result@ == (ErrorsModel { error: None, material_error: None }),
    {
        MeshExportBatchErrors { error: None, material_error: None }
    }
}

/// Takes an error as one that stops a job.
pub fn fatal_mesh_export_error(message: &str) -> (result: MeshExportBatchErrors)
    ensures
        result@ == (ErrorsModel { error: Some(message@), material_error: None }),
{
    MeshExportBatchErrors { error: Some(copy_text(message)), material_error: None }
}

/// What is said of a material error, where the sidecar could not be removed
/// either.
pub open spec fn material_message(
    message: Seq<char>,
    sidecar: Seq<char>,
    cleanup: Option<Seq<char>>,
) -> Seq<char> {
    match cleanup {
        None => message,
        Some(error) => message + "; failed to remove incomplete material sidecar "@ + sidecar
            + ": "@ + error,
    }
}

/// A cleanup error, if there is one.
pub open spec fn optional_str(text: Option<&str>) -> Option<Seq<char>> {
    match text {
        Some(text) => Some(text@),
        None => None,
    }
}

/// Takes a material error as one that stops a job where materials are baked,
/// else as a warning.
pub fn classify_material_export_error(
    message: &str,
    sidecar: &str,
    cleanup: Option<&str>,
    pbr: bool,
) -> (result: MeshExportBatchErrors)
    ensures
        ({
            let words = material_message(message@, sidecar@, optional_str(cleanup));
            result@ == if pbr {
                ErrorsModel { error: Some(words), material_error: None }
            } else {
                ErrorsModel { error: None, material_error: Some(words) }
            }
        }),
{
    let mut words: String = copy_text(message);
    if let Some(error) = cleanup {
        push_text(&mut words, "; failed to remove incomplete material sidecar ");
        push_text(&mut words, sidecar);
        push_text(&mut words, ": ");
        push_text(&mut words, error);
    }
    if pbr {
        MeshExportBatchErrors { error: Some(words), material_error: None }
    } else {
        MeshExportBatchErrors { error: None, material_error: Some(words) }
    }
}

/// Errors as they are.
pub open spec fn error_models(list: Seq<MeshExportBatchErrors>) -> Seq<ErrorsModel> {
    list.map_values(|errors: MeshExportBatchErrors| errors@)
}

/// How many of the first `n` jobs were stopped, and how many have errors in
/// their materials only.
pub open spec fn outcome_counts(list: Seq<ErrorsModel>, n: nat) -> (nat, nat)
    decreases n,
{
    if n == 0 {
        (0, 0)
    } else {
        let (fatal, material) = outcome_counts(list, (n - 1) as nat);
        (
            fatal + if list[n - 1].error is Some {
                1nat
            } else {
                0nat
            },
            material + if list[n - 1].material_error is Some {
                1nat
            } else {
                0nat
            },
        )
    }
}

/// Counts the jobs that were stopped, and those with errors in their materials
/// only.
pub fn mesh_export_batch_outcome_counts(list: &Vec<MeshExportBatchErrors>) -> (result: (
    usize,
    usize,
))
    ensures
        outcome_counts(error_models(list@), list@.len()) == (result.0 as nat, result.1 as nat),
{
    let ghost all = error_models(list@);
    let mut fatal: usize = 0;
    let mut material: usize = 0;
    let mut i: usize = 0;
    while i < list.len()
        invariant
            i <= list@.len(),
            all == error_models(list@),
            fatal <= i,
            material <= i,
            outcome_counts(all, i as nat) == (fatal as nat, material as nat),
        decreases list@.len() - i,
    {
        assert(all[i as int] == list@[i as int]@);
        if list[i].error.is_some() {
            fatal = fatal + 1;
        }
        if list[i].material_error.is_some() {
            material = material + 1;
        }
        i = i + 1;
    }
    (fatal, material)
}

/// Says what became of a job.
pub fn batch_status(is_fatal: bool, has_material_warning: bool) -> (result: &'static str)
    ensures
        result@ == if is_fatal {
            "failed"@
        } else if has_material_warning {
            "material warning"@
        } else {
            "complete"@
        },
{
    if is_fatal {
        "failed"
    } else if has_material_warning {
        "material warning"
    } else {
        "complete"
    }
}

/// Tests whether a job is the first that was stopped, or the first with an
/// error in its materials. The counts hold the job.
pub fn is_first_problem(
    is_fatal: bool,
    fatal_count: usize,
    has_material_warning: bool,
    material_warning_count: usize,
) -> (result: bool)
    ensures
        result == ((is_fatal && fatal_count == 1) || (has_material_warning
            && material_warning_count == 1)),
{
    (is_fatal && fatal_count == 1) || (has_material_warning && material_warning_count == 1)
}

/// The parts of a path: up to `n` characters, those between slashes, and the
/// last, which goes on.
pub open spec fn split_path(path: Seq<char>, n: nat) -> (Seq<Seq<char>>, Seq<char>)
    decreases n,
{
    if n == 0 {
        (Seq::empty(), Seq::empty())
    } else {
        let (parts, part) = split_path(path, (n - 1) as nat);
        if path[n - 1] == '/' {
            (with_part(parts, part), Seq::empty())
        } else {
            (parts, part.push(path[n - 1]))
        }
    }
}

/// The parts of a path with one more: a single dot stays where it is, and two
/// dots lead up.
pub open spec fn with_part(parts: Seq<Seq<char>>, part: Seq<char>) -> Seq<Seq<char>> {
    if part.len() == 0 || part == "."@ {
        parts
    } else if part == ".."@ {
        if parts.len() == 0 {
            parts
        } else {
            parts.drop_last()
        }
    } else {
        parts.push(part)
    }
}

/// Parts joined to a path.
pub open spec fn joined(parts: Seq<Seq<char>>) -> Seq<char>
    decreases parts.len(),
{
    if parts.len() == 0 {
        Seq::empty()
    } else {
        joined(parts.drop_last()) + "/"@ + parts.last()
    }
}

/// The key of an output: its absolute path without detours; in lower case,
/// where case does not tell paths apart.
pub open spec fn output_key(path: Seq<char>, ignore_case: bool) -> Seq<char> {
    let (parts, part) = split_path(path, path.len());
    let key = joined(with_part(parts, part));
    if ignore_case {
        text::lowercase(key)
    } else {
        key
    }
}

/// Parts as they are.
pub open spec fn texts(list: Seq<String>) -> Seq<Seq<char>> {
    list.map_values(|text: String| text@)
}

fn add_part(parts: &mut Vec<String>, part: &Vec<char>)
    ensures
        texts(final(parts)@) == with_part(texts(old(parts)@), part@),
{
    let ghost before = texts(parts@);
    proof {
        assert(before.len() == parts@.len());
    }
    let word: String = text_of(part.as_slice());
    if part.len() == 0 || same_text(word.as_str(), ".") {
        return;
    }
    if same_text(word.as_str(), "..") {
        if parts.len() > 0 {
            parts.pop();
            assert(texts(parts@) =~= before.drop_last());
        }
        return;
    }
    parts.push(word);
    assert(texts(parts@) =~= before.push(part@));
}

/// Makes the key of an output out of its absolute path, whose parts stand
/// between slashes.
pub fn mesh_export_output_collision_key(path: &str, ignore_case: bool) -> (result: String)
    ensures
        result@ == output_key(path@, ignore_case),
{
    let chars: Vec<char> = chars_of(path);
    let mut parts: Vec<String> = Vec::new();
    let mut part: Vec<char> = Vec::new();
    assert(texts(parts@) =~= Seq::empty());
    let mut i: usize = 0;
    while i < chars.len()
        invariant
            i <= chars@.len(),
            chars@ == path@,
            split_path(path@, i as nat) == (texts(parts@), part@),
        decreases chars@.len() - i,
    {
        if chars[i] == '/' {
            add_part(&mut parts, &part);
            part = Vec::new();
        } else {
            part.push(chars[i]);
        }
        i = i + 1;
    }
    add_part(&mut parts, &part);
    let ghost all = texts(parts@);
    let mut key: String = String::new();
    let mut k: usize = 0;
    assert(all.subrange(0, 0) =~= Seq::empty());
    assert(key@ =~= joined(all.subrange(0, 0)));
    while k < parts.len()
        invariant
            k <= parts@.len(),
            all == texts(parts@),
            key@ == joined(all.subrange(0, k as int)),
        decreases parts@.len() - k,
    {
        proof {
            assert(all.subrange(0, k + 1).drop_last() =~= all.subrange(0, k as int));
            assert(all.subrange(0, k + 1).last() == parts@[k as int]@);
        }
        push_text(&mut key, "/");
        push_text(&mut key, parts[k].as_str());
        assert(key@ =~= joined(all.subrange(0, k + 1)));
        k = k + 1;
    }
    assert(all.subrange(0, k as int) =~= all);
    if ignore_case {
        to_lowercase(key.as_str())
    } else {
        key
    }
}

/// Two outputs with the same key: the places of both among all outputs.
pub open spec fn collides(keys: Seq<Seq<char>>, first: int, second: int) -> bool {
    0 <= first < second < keys.len() && keys[first] == keys[second]
}

/// Whether an output is the first that collides with an earlier one.
pub open spec fn first_collision(keys: Seq<Seq<char>>, first: int, second: int) -> bool {
    collides(keys, first, second) && forall|i: int, j: int|
        #[trigger] collides(keys, i, j) ==> second < j || (second == j && first == i)
}

/// Finds the first output whose key an earlier output has. Each job has two
/// outputs, one behind the other.
pub fn find_collision(keys: &Vec<String>) -> (result: Option<(usize, usize)>)
    ensures
        match result {
            Some((first, second)) => first_collision(texts(keys@), first as int, second as int),
            None => forall|i: int, j: int| !#[trigger] collides(texts(keys@), i, j),
        },
{
    let ghost all = texts(keys@);
    let mut second: usize = 0;
    while second < keys.len()
        invariant
            second <= keys@.len(),
            all == texts(keys@),
            forall|i: int, j: int| #[trigger] collides(all, i, j) ==> j >= second,
        decreases keys@.len() - second,
    {
        let mut first: usize = 0;
        while first < second
            invariant
                first <= second < keys@.len(),
                all == texts(keys@),
                forall|i: int, j: int| #[trigger] collides(all, i, j) ==> j >= second,
                forall|i: int| #[trigger] collides(all, i, second as int) ==> i >= first,
            decreases second - first,
        {
            assert(all[first as int] == keys@[first as int]@);
            assert(all[second as int] == keys@[second as int]@);
            if same_text(keys[first].as_str(), keys[second].as_str()) {
                assert(collides(all, first as int, second as int));
                assert forall|i: int, j: int| #[trigger] collides(all, i, j) implies second < j || (
                second == j && first == i) by {
                    if j == second && i > first {
                        assert(all[i] == all[first as int]);
                        assert(collides(all, first as int, i));
                    }
                }
                return Some((first, second));
            }
            first = first + 1;
        }
        second = second + 1;
    }
    None
}

} // verus!
