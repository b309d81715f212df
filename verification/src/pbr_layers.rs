//! What the layers of a material say: their levels and colours, and the files
//! that hold their textures. Floats are given by their bits.

use crate::pbr;
use crate::pbr::{resource_string, Fault, PbrError};
use crate::text::{chars_of, same_text, text_of};
use crate::value;
use crate::value::{copy_text, Value};
use vstd::prelude::*;

verus! {

/// The number under a key, as a float of double precision.
pub open spec fn double_in(m: value::Model, key: Seq<char>) -> Option<u64> {
    match value::member(m, key) {
        Some(found) => double_of(found),
        None => None,
    }
}

/// A number as a float of double precision.
pub open spec fn double_of(m: value::Model) -> Option<u64> {
    match m {
        value::Model::Number(number) => number.double,
        _ => None,
    }
}

fn as_double(value: &Value) -> (result: Option<u64>)
    ensures
        result == double_of(value@),
{
    match value {
        Value::Number(number) => number.double,
        _ => None,
    }
}

/// Finds the number under a key.
pub fn scalar(data: &Value, key: &str) -> (result: Option<u64>)
    ensures
        result == double_in(data@, key@),
{
    match data.get(key) {
        Some(found) => as_double(found),
        None => None,
    }
}

/// The components of a colour or vector. A value that has a red component is a
/// colour.
pub open spec fn components(m: value::Model) -> Seq<Option<u64>> {
    if value::member(m, "Red"@) is Some {
        seq![
            double_in(m, "Red"@),
            double_in(m, "Green"@),
            double_in(m, "Blue"@),
            double_in(m, "Alpha"@),
        ]
    } else {
        seq![
            double_in(m, "X"@),
            double_in(m, "Y"@),
            double_in(m, "Z"@),
            double_in(m, "W"@),
        ]
    }
}

/// Reads the components of a colour or vector.
pub fn color(value: &Value) -> (result: Vec<Option<u64>>)
    ensures
        result@ == components(value@),
{
    let mut out: Vec<Option<u64>> = Vec::new();
    if value.get("Red").is_some() {
        out.push(scalar(value, "Red"));
        out.push(scalar(value, "Green"));
        out.push(scalar(value, "Blue"));
        out.push(scalar(value, "Alpha"));
    } else {
        out.push(scalar(value, "X"));
        out.push(scalar(value, "Y"));
        out.push(scalar(value, "Z"));
        out.push(scalar(value, "W"));
    }
    assert(out@ =~= components(value@));
    out
}

/// The name under a key.
pub open spec fn name_in(m: value::Model, key: Seq<char>) -> Option<Seq<char>> {
    match value::member(m, key) {
        Some(found) => pbr::resource(found),
        None => None,
    }
}

fn find_name<'a>(value: &'a Value, key: &str) -> (result: Option<&'a str>)
    ensures
        match name_in(value@, key@) {
            Some(name) => result matches Some(r) && r@ == name,
            None => result is None,
        },
{
    match value.get(key) {
        Some(found) => resource_string(found),
        None => None,
    }
}

/// What a layer chooses: its own choice, or that of its template, or none.
pub open spec fn choice(layer: value::Model, defaults: value::Model, key: Seq<char>) -> Seq<char> {
    match name_in(layer, key) {
        Some(name) => name,
        None => match name_in(defaults, key) {
            Some(name) => name,
            None => "null"@,
        },
    }
}

/// Finds what a layer chooses.
pub fn layer_choice(layer: &Value, defaults: &Value, key: &str) -> (result: String)
    ensures
        result@ == choice(layer@, defaults@, key@),
{
    if let Some(name) = find_name(layer, key) {
        return copy_text(name);
    }
    match find_name(defaults, key) {
        Some(name) => copy_text(name),
        None => copy_text("null"),
    }
}

/// The first of the entries from `i` on that has a name.
pub open spec fn named_entry(list: Seq<value::Model>, name: Seq<char>, i: nat) -> Option<
    value::Model,
>
    decreases list.len() - i,
{
    if i >= list.len() {
        None
    } else if name_in(list[i as int], "n"@) == Some(name) {
        Some(list[i as int])
    } else {
        named_entry(list, name, i + 1)
    }
}

/// The numbers among the first `n` values.
pub open spec fn doubles(list: Seq<value::Model>, n: nat) -> Seq<u64>
    decreases n,
{
    if n == 0 {
        Seq::empty()
    } else {
        let before = doubles(list, (n - 1) as nat);
        match double_of(list[n - 1]) {
            Some(bits) => before.push(bits),
            None => before,
        }
    }
}

/// The numbers of an entry.
pub open spec fn entry_numbers(entry: value::Model) -> Option<Seq<u64>> {
    match value::member(entry, "v"@) {
        Some(inner) => match value::member(inner, "Elements"@) {
            Some(value::Model::Array(list)) => Some(doubles(list, list.len())),
            _ => None,
        },
        None => None,
    }
}

/// The numbers that a template gives for a choice, if it gives as many as
/// wanted.
pub open spec fn overridden(
    overrides: value::Model,
    kind: Seq<char>,
    selected: Seq<char>,
    count: nat,
) -> Option<Seq<u64>> {
    match value::member(overrides, kind) {
        Some(value::Model::Array(list)) => match named_entry(list, selected, 0) {
            Some(entry) => match entry_numbers(entry) {
                Some(numbers) if numbers.len() == count => Some(numbers),
                _ => None,
            },
            None => None,
        },
        _ => None,
    }
}

fn take_doubles(list: &Vec<Value>) -> (result: Vec<u64>)
    ensures
        result@ == doubles(value::models(list@), list@.len()),
{
    let ghost all = value::models(list@);
    proof {
        value::lemma_models(list@);
    }
    let mut out: Vec<u64> = Vec::new();
    let mut i: usize = 0;
    while i < list.len()
        invariant
            i <= list@.len(),
            all == value::models(list@),
            forall|k: int| 0 <= k < list@.len() ==> #[trigger] all[k] == value::model(list@[k]),
            out@ == doubles(all, i as nat),
        decreases list@.len() - i,
    {
        assert(all[i as int] == value::model(list@[i as int]));
        if let Some(bits) = as_double(&list[i]) {
            out.push(bits);
        }
        i = i + 1;
    }
    out
}

fn read_entry(entry: &Value) -> (result: Option<Vec<u64>>)
    ensures
        match entry_numbers(entry@) {
            Some(numbers) => result matches Some(r) && r@ == numbers,
            None => result is None,
        },
{
    match entry.get("v") {
        Some(inner) => match inner.get("Elements") {
            Some(Value::Array(list)) => {
                proof {
                    value::lemma_models(list@);
                }
                Some(take_doubles(list))
            },
            _ => None,
        },
        None => None,
    }
}

fn find_entry<'a>(list: &'a Vec<Value>, name: &str) -> (result: Option<&'a Value>)
    ensures
        match named_entry(value::models(list@), name@, 0) {
            Some(entry) => result matches Some(r) && r@ == entry,
            None => result is None,
        },
{
    let ghost all = value::models(list@);
    proof {
        value::lemma_models(list@);
    }
    let mut i: usize = 0;
    while i < list.len()
        invariant
            i <= list@.len(),
            all == value::models(list@),
            all.len() == list@.len(),
            forall|k: int| 0 <= k < list@.len() ==> #[trigger] all[k] == value::model(list@[k]),
            named_entry(all, name@, 0) == named_entry(all, name@, i as nat),
        decreases list@.len() - i,
    {
        assert(all[i as int] == value::model(list@[i as int]));
        if let Some(own) = find_name(&list[i], "n") {
            if same_text(own, name) {
                return Some(&list[i]);
            }
        }
        i = i + 1;
    }
    None
}

/// Looks up the numbers that a template gives for a choice, if it gives as many
/// as wanted.
pub fn lookup_override(overrides: &Value, kind: &str, selected: &str, count: usize) -> (result:
    Option<Vec<u64>>)
    ensures
        match overridden(overrides@, kind@, selected@, count as nat) {
            Some(numbers) => result matches Some(r) && r@ == numbers,
            None => result is None,
        },
{
    match overrides.get(kind) {
        Some(Value::Array(list)) => match find_entry(list, selected) {
            Some(entry) => match read_entry(entry) {
                Some(numbers) => {
                    if numbers.len() == count {
                        Some(numbers)
                    } else {
                        None
                    }
                },
                None => None,
            },
            None => None,
        },
        _ => None,
    }
}

/// The main value of a resource.
pub open spec fn main_value(document: value::Model) -> Result<value::Model, Fault> {
    let missing = Fault::Malformed("resource JSON has no Data.RootChunk"@);
    match value::member(document, "Data"@) {
        Some(data) => match value::member(data, "RootChunk"@) {
            Some(root) => Ok(root),
            None => Err(missing),
        },
        None => Err(missing),
    }
}

/// Finds the main value of a resource.
pub fn root_chunk(document: &Value) -> (result: Result<&Value, PbrError>)
    ensures
        match main_value(document@) {
            Ok(root) => result matches Ok(r) && r@ == root,
            Err(f) => result matches Err(e) && e@ == f,
        },
{
    if let Some(data) = document.get("Data") {
        if let Some(root) = data.get("RootChunk") {
            return Ok(root);
        }
    }
    Err(PbrError::Malformed { reason: "resource JSON has no Data.RootChunk" })
}

/// The layers of a setup.
pub open spec fn layers_of(document: value::Model) -> Result<Seq<value::Model>, Fault> {
    match main_value(document) {
        Err(f) => Err(f),
        Ok(setup) => match value::member(setup, "layers"@) {
            Some(value::Model::Array(layers)) => if layers.len() == 0 {
                Err(Fault::Malformed("setup has no material layers"@))
            } else {
                Ok(layers)
            },
            _ => Err(Fault::Malformed("setup has no layers"@)),
        },
    }
}

/// Finds the layers of a setup, of which there has to be one.
pub fn find_layers(document: &Value) -> (result: Result<&Vec<Value>, PbrError>)
    ensures
        match layers_of(document@) {
            Ok(layers) => result matches Ok(r) && value::models(r@) == layers,
            Err(f) => result matches Err(e) && e@ == f,
        },
{
    let setup: &Value = match root_chunk(document) {
        Ok(setup) => setup,
        Err(error) => return Err(error),
    };
    match setup.get("layers") {
        Some(Value::Array(layers)) => {
            proof {
                value::lemma_models(layers@);
            }
            if layers.len() == 0 {
                Err(PbrError::Malformed { reason: "setup has no material layers" })
            } else {
                Ok(layers)
            }
        },
        _ => Err(PbrError::Malformed { reason: "setup has no layers" }),
    }
}

/// Whether a character parts a path.
pub open spec fn parts_path(c: char) -> bool {
    c == '/' || c == '\\'
}

/// A path with another part, unless the part leads nowhere or up.
pub open spec fn with_part(path: Seq<char>, part: Seq<char>) -> Seq<char> {
    if part.len() == 0 || part == seq!['.'] || part == seq!['.', '.'] {
        path
    } else if path.len() == 0 {
        part
    } else {
        path.push('/') + part
    }
}

/// The path that the first `n` characters give, and the part that goes on.
pub open spec fn path_parts(depot: Seq<char>, n: nat) -> (Seq<char>, Seq<char>)
    decreases n,
{
    if n == 0 {
        (Seq::empty(), Seq::empty())
    } else {
        let (path, part) = path_parts(depot, (n - 1) as nat);
        if parts_path(depot[n - 1]) {
            (with_part(path, part), Seq::empty())
        } else {
            (path, part.push(depot[n - 1]))
        }
    }
}

/// The path of a depot path below a repository.
pub open spec fn plain_path(depot: Seq<char>) -> Seq<char> {
    let (path, part) = path_parts(depot, depot.len());
    with_part(path, part)
}

/// Where the extension of the first `n` characters of a path starts: at the
/// last dot of its last part that is not the first character of the part.
pub open spec fn dot_of(path: Seq<char>, n: nat) -> Option<nat>
    decreases n,
{
    if n == 0 || path[n - 1] == '/' {
        None
    } else if path[n - 1] == '.' && n >= 2 && path[n - 2] != '/' {
        Some((n - 1) as nat)
    } else {
        dot_of(path, (n - 1) as nat)
    }
}

/// A path with another extension.
pub open spec fn with_extension(path: Seq<char>, extension: Seq<char>) -> Seq<char> {
    let stem = match dot_of(path, path.len()) {
        Some(at) => path.subrange(0, at as int),
        None => path,
    };
    if extension.len() == 0 {
        stem
    } else {
        stem.push('.') + extension
    }
}

fn append(path: &mut Vec<char>, more: &Vec<char>)
    ensures
        final(path)@ == old(path)@ + more@,
{
    let ghost before = path@;
    let mut i: usize = 0;
    assert(before + more@.subrange(0, 0) =~= before);
    while i < more.len()
        invariant
            i <= more@.len(),
            path@ == before + more@.subrange(0, i as int),
        decreases more@.len() - i,
    {
        assert(more@.subrange(0, i + 1) =~= more@.subrange(0, i as int).push(more@[i as int]));
        path.push(more[i]);
        i = i + 1;
        assert(path@ =~= before + more@.subrange(0, i as int));
    }
    assert(more@.subrange(0, i as int) =~= more@);
}

fn add_part(path: &mut Vec<char>, part: &Vec<char>)
    ensures
        final(path)@ == with_part(old(path)@, part@),
{
    let stays: bool = part.len() == 0 || (part.len() == 1 && part[0] == '.') || (part.len() == 2
        && part[0] == '.' && part[1] == '.');
    proof {
        assert((part@ == seq!['.']) == (part@.len() == 1 && part@[0] == '.')) by {
            if part@.len() == 1 && part@[0] == '.' {
                assert(part@ =~= seq!['.']);
            }
        }
        assert((part@ == seq!['.', '.']) == (part@.len() == 2 && part@[0] == '.' && part@[1]
            == '.')) by {
            if part@.len() == 2 && part@[0] == '.' && part@[1] == '.' {
                assert(part@ =~= seq!['.', '.']);
            }
        }
    }
    if !stays {
        if path.len() > 0 {
            path.push('/');
        } else {
            assert(path@ + part@ =~= part@);
        }
        append(path, part);
    }
}

fn find_dot(path: &Vec<char>) -> (result: Option<usize>)
    ensures
        match dot_of(path@, path@.len()) {
            Some(at) => result matches Some(r) && r == at && at <= path@.len(),
            None => result is None,
        },
{
    let mut n: usize = path.len();
    while n > 0 && path[n - 1] != '/'
        invariant
            n <= path@.len(),
            dot_of(path@, path@.len()) == dot_of(path@, n as nat),
        decreases n,
    {
        if path[n - 1] == '.' && n >= 2 && path[n - 2] != '/' {
            return Some(n - 1);
        }
        n = n - 1;
    }
    None
}

/// Makes the path, below a repository, of the file that holds a resource with
/// another extension.
pub fn depot_to_path(depot: &str, extension: &str) -> (result: String)
    ensures
        result@ == with_extension(plain_path(depot@), extension@),
{
    let chars: Vec<char> = chars_of(depot);
    let mut path: Vec<char> = Vec::new();
    let mut part: Vec<char> = Vec::new();
    let mut i: usize = 0;
    while i < chars.len()
        invariant
            i <= chars@.len(),
            chars@ == depot@,
            (path@, part@) == path_parts(depot@, i as nat),
        decreases chars@.len() - i,
    {
        if chars[i] == '/' || chars[i] == '\\' {
            add_part(&mut path, &part);
            part = Vec::new();
        } else {
            part.push(chars[i]);
        }
        i = i + 1;
    }
    add_part(&mut path, &part);
    let ghost plain = path@;
    let mut stem: Vec<char> = match find_dot(&path) {
        Some(at) => crate::text::part_of(&path, 0, at),
        None => path,
    };
    let end: Vec<char> = chars_of(extension);
    if end.len() > 0 {
        stem.push('.');
        append(&mut stem, &end);
    }
    text_of(stem.as_slice())
}

} // verus!
