//! Material resources: members of their documents, references to other
//! resources, and the values that a sidecar shows.

use crate::archive;
use crate::archive::safe_depot_path;
use crate::entries;
use crate::redpackage_pools::entry_position;
use crate::text;
use crate::text::{chars_of, part_of, push_text, same_text, text_of};
use crate::number_text;
use crate::number_text::decimal_text;
use crate::value;
use crate::value::{copy_text, set_entry, Value};
use vstd::prelude::*;

pub use crate::archive_set::ArchiveSet;
pub use crate::material_sidecar::ExportSummary;

verus! {

/// Reports material data that cannot be used.
#[derive(Debug, PartialEq, Eq)]
pub enum MaterialError {
    /// Embedded bytes are not base64.
    Base64,
    /// A document is not what it has to be.
    Malformed { reason: &'static str },
    /// The compression of a texture is not supported.
    UnsupportedTexture { compression: String },
    /// A texture has too few bytes.
    Texture { compression: String, width: usize, height: usize, size: usize },
    /// The atlas of a mask has too few bytes.
    Atlas,
}

/// What an error says.
pub ghost enum Fault {
    Base64,
    Malformed(Seq<char>),
    UnsupportedTexture(Seq<char>),
    Texture(Seq<char>, nat, nat, nat),
    Atlas,
}

impl View for MaterialError {
    type V = Fault;

    open spec fn view(&self) -> Fault {
        match self {
            MaterialError::Base64 => Fault::Base64,
            MaterialError::Malformed { reason } => Fault::Malformed(reason@),
            MaterialError::UnsupportedTexture { compression } => Fault::UnsupportedTexture(
                compression@,
            ),
            MaterialError::Texture { compression, width, height, size } => Fault::Texture(
                compression@,
                *width as nat,
                *height as nat,
                *size as nat,
            ),
            MaterialError::Atlas => Fault::Atlas,
        }
    }
}

/// The words of an error.
pub open spec fn message(fault: Fault) -> Seq<char> {
    match fault {
        Fault::Base64 => "could not decode embedded bytes"@,
        Fault::Malformed(reason) => "malformed material data: "@ + reason,
        Fault::UnsupportedTexture(compression) => "unsupported texture compression: "@
            + compression,
        Fault::Texture(compression, width, height, size) =>
            "texture decoder failed: Not enough data to decode image! ("@ + compression + ", "@
            + number_text::decimal(width) + "x"@ + number_text::decimal(height) + ", "@
            + number_text::decimal(size) + " bytes)"@,
        Fault::Atlas => "texture decoder failed: Not enough data to decode image!"@,
    }
}

impl MaterialError {
    /// Says what is wrong.
    pub fn describe(&self) -> (result: String)
        ensures
            result@ == message(self@),
    {
        let mut words: String = String::new();
        match self {
            MaterialError::Base64 => push_text(&mut words, "could not decode embedded bytes"),
            MaterialError::Malformed { reason } => {
                push_text(&mut words, "malformed material data: ");
                push_text(&mut words, reason);
            },
            MaterialError::UnsupportedTexture { compression } => {
                push_text(&mut words, "unsupported texture compression: ");
                push_text(&mut words, compression.as_str());
            },
            MaterialError::Texture { compression, width, height, size } => {
                push_text(
                    &mut words,
                    "texture decoder failed: Not enough data to decode image! (",
                );
                push_text(&mut words, compression.as_str());
                push_text(&mut words, ", ");
                push_text(&mut words, decimal_text(*width as u64).as_str());
                push_text(&mut words, "x");
                push_text(&mut words, decimal_text(*height as u64).as_str());
                push_text(&mut words, ", ");
                push_text(&mut words, decimal_text(*size as u64).as_str());
                push_text(&mut words, " bytes)");
            },
            MaterialError::Atlas => push_text(
                &mut words,
                "texture decoder failed: Not enough data to decode image!",
            ),
        }
        assert(words@ =~= message(self@));
        words
    }
}

/// A fault.
pub open spec fn bad<T>(reason: Seq<char>) -> Result<T, Fault> {
    Err(Fault::Malformed(reason))
}

/// Makes an error.
pub fn malformed(reason: &'static str) -> (result: MaterialError)
    ensures
        result@ == Fault::Malformed(reason@),
{
    MaterialError::Malformed { reason }
}

/// The unsigned integer of a number that is one and fits the machine.
pub open spec fn size_of(m: value::Model) -> Option<nat> {
    match value::integer_of(m) {
        Some(n) => if 0 <= n <= u64::MAX && n <= usize::MAX {
            Some(n as nat)
        } else {
            None
        },
        None => None,
    }
}

/// The member of a member, and so on.
pub open spec fn path_in(m: value::Model, members: Seq<Seq<char>>) -> Result<value::Model, Fault>
    decreases members.len(),
{
    if members.len() == 0 {
        Ok(m)
    } else {
        match path_in(m, members.drop_last()) {
            Err(f) => Err(f),
            Ok(inner) => field(inner, members.last()),
        }
    }
}

/// A member that has to be there.
pub open spec fn field(m: value::Model, name: Seq<char>) -> Result<value::Model, Fault> {
    match value::member(m, name) {
        Some(found) => Ok(found),
        None => bad("required object member is missing"@),
    }
}

/// An array that has to be there.
pub open spec fn items_in(m: value::Model, name: Seq<char>) -> Result<Seq<value::Model>, Fault> {
    match value::member(m, name) {
        Some(value::Model::Array(items)) => Ok(items),
        _ => bad("required array member is missing"@),
    }
}

/// A text that has to be there.
pub open spec fn text_in(m: value::Model, name: Seq<char>) -> Result<Seq<char>, Fault> {
    match value::member(m, name) {
        Some(value::Model::Text(text)) => Ok(text),
        _ => bad("required string member is missing"@),
    }
}

/// A size that has to be there.
pub open spec fn size_in(m: value::Model, name: Seq<char>) -> Result<nat, Fault> {
    match value::member(m, name) {
        None => bad("required integer member is missing"@),
        Some(found) => match size_of(found) {
            Some(n) => Ok(n),
            None => bad("required integer member is missing"@),
        },
    }
}

/// A size, zero where it is missing or something else.
pub open spec fn size_or_zero(m: value::Model, name: Seq<char>) -> nat {
    match value::member(m, name) {
        None => 0,
        Some(found) => match size_of(found) {
            Some(n) => n,
            None => 0,
        },
    }
}

/// A truth, false where it is missing or something else.
pub open spec fn flag_in(m: value::Model, name: Seq<char>) -> bool {
    value::member(m, name) == Some(value::Model::Bool(true))
}

/// The path that a value refers to, if it refers to one.
pub open spec fn reference(m: value::Model) -> Option<Seq<char>> {
    let through = match value::member(m, "DepotPath"@) {
        Some(inner) => value::member(inner, "$value"@),
        None => None,
    };
    let found = match through {
        Some(inner) => Some(inner),
        None => value::member(m, "$value"@),
    };
    match found {
        Some(inner) => value::text_of(inner),
        None => None,
    }
}

/// The path that a value has to refer to.
pub open spec fn depot_path(m: value::Model) -> Result<Seq<char>, Fault> {
    match reference(m) {
        Some(path) => Ok(path),
        None => bad("resource reference has no depot path"@),
    }
}

/// The text of a name or a plain text.
pub open spec fn red_text(m: value::Model) -> Result<Seq<char>, Fault> {
    let named = match value::member(m, "$value"@) {
        Some(inner) => value::text_of(inner),
        None => None,
    };
    match named {
        Some(text) => Ok(text),
        None => match value::text_of(m) {
            Some(text) => Ok(text),
            None => bad("RED string value is missing"@),
        },
    }
}

/// Reads a size.
pub fn usize_value(value: &Value) -> (result: Option<usize>)
    ensures
        match size_of(value@) {
            Some(n) => result matches Some(r) && r == n,
            None => result is None,
        },
{
    match value.as_integer() {
        Some(n) => if 0 <= n && n <= 0xffff_ffff_ffff_ffff && n <= usize::MAX as i128 {
            Some(n as usize)
        } else {
            None
        },
        None => None,
    }
}

/// Finds a member.
pub fn member<'a>(value: &'a Value, name: &str) -> (result: Result<&'a Value, MaterialError>)
    ensures
        match field(value@, name@) {
            Ok(found) => result matches Ok(r) && r@ == found,
            Err(f) => result matches Err(e) && e@ == f,
        },
{
    match value.get(name) {
        Some(found) => Ok(found),
        None => Err(malformed("required object member is missing")),
    }
}

/// Finds an array.
pub fn array<'a>(value: &'a Value, name: &str) -> (result: Result<&'a Vec<Value>, MaterialError>)
    ensures
        match items_in(value@, name@) {
            Ok(found) => result matches Ok(r) && value::models(r@) == found,
            Err(f) => result matches Err(e) && e@ == f,
        },
{
    match value.get(name) {
        Some(Value::Array(items)) => Ok(items),
        _ => Err(malformed("required array member is missing")),
    }
}

/// Finds a text.
pub fn string<'a>(value: &'a Value, name: &str) -> (result: Result<&'a str, MaterialError>)
    ensures
        match text_in(value@, name@) {
            Ok(found) => result matches Ok(r) && r@ == found,
            Err(f) => result matches Err(e) && e@ == f,
        },
{
    match value.get(name) {
        Some(Value::Text(text)) => Ok(text.as_str()),
        _ => Err(malformed("required string member is missing")),
    }
}

/// Finds a size.
pub fn required_usize(value: &Value, name: &str) -> (result: Result<usize, MaterialError>)
    ensures
        match size_in(value@, name@) {
            Ok(found) => result matches Ok(r) && r == found,
            Err(f) => result matches Err(e) && e@ == f,
        },
{
    match value.get(name) {
        None => Err(malformed("required integer member is missing")),
        Some(found) => match usize_value(found) {
            Some(n) => Ok(n),
            None => Err(malformed("required integer member is missing")),
        },
    }
}

/// Finds a size, zero where there is none.
pub fn usize_or_zero(value: &Value, name: &str) -> (result: usize)
    ensures
        result == size_or_zero(value@, name@),
{
    match value.get(name) {
        None => 0,
        Some(found) => match usize_value(found) {
            Some(n) => n,
            None => 0,
        },
    }
}

/// Tests a truth.
pub fn flag(value: &Value, name: &str) -> (result: bool)
    ensures
        result == flag_in(value@, name@),
{
    match value.get(name) {
        Some(Value::Bool(truth)) => *truth,
        _ => false,
    }
}

fn find_reference<'a>(value: &'a Value) -> (result: Option<&'a str>)
    ensures
        match reference(value@) {
            Some(path) => result matches Some(r) && r@ == path,
            None => result is None,
        },
{
    let through: Option<&'a Value> = match value.get("DepotPath") {
        Some(inner) => inner.get("$value"),
        None => None,
    };
    let found: Option<&'a Value> = match through {
        Some(inner) => Some(inner),
        None => value.get("$value"),
    };
    match found {
        Some(inner) => inner.as_text(),
        None => None,
    }
}

/// Finds the path that a value refers to.
pub fn red_depot_path(value: &Value) -> (result: Result<String, MaterialError>)
    ensures
        match depot_path(value@) {
            Ok(path) => result matches Ok(r) && r@ == path,
            Err(f) => result matches Err(e) && e@ == f,
        },
{
    match find_reference(value) {
        Some(path) => Ok(copy_text(path)),
        None => Err(malformed("resource reference has no depot path")),
    }
}

/// Finds the text of a name or a plain text.
pub fn red_string(value: &Value) -> (result: Result<String, MaterialError>)
    ensures
        match red_text(value@) {
            Ok(text) => result matches Ok(r) && r@ == text,
            Err(f) => result matches Err(e) && e@ == f,
        },
{
    let named: Option<&str> = match value.get("$value") {
        Some(inner) => inner.as_text(),
        None => None,
    };
    match named {
        Some(text) => Ok(copy_text(text)),
        None => match value.as_text() {
            Some(text) => Ok(copy_text(text)),
            None => Err(malformed("RED string value is missing")),
        },
    }
}

/// Where the last dot of a path stands, among its first `n` characters.
pub open spec fn last_dot(path: Seq<char>, n: nat) -> Option<nat>
    decreases n,
{
    if n == 0 {
        None
    } else if path[n - 1] == '.' {
        Some((n - 1) as nat)
    } else {
        last_dot(path, (n - 1) as nat)
    }
}

/// What stands behind the last dot of a path.
pub open spec fn extension_of(path: Seq<char>) -> Option<Seq<char>> {
    match last_dot(path, path.len()) {
        Some(at) => Some(path.subrange((at + 1) as int, path.len() as int)),
        None => None,
    }
}

/// Finds what stands behind the last dot of a path.
pub fn extension(path: &str) -> (result: Option<String>)
    ensures
        match extension_of(path@) {
            Some(found) => result matches Some(r) && r@ == found,
            None => result is None,
        },
{
    let chars: Vec<char> = chars_of(path);
    let mut n: usize = chars.len();
    while n > 0
        invariant
            n <= chars@.len(),
            chars@ == path@,
            last_dot(path@, path@.len()) == last_dot(path@, n as nat),
        decreases n,
    {
        if chars[n - 1] == '.' {
            return Some(text_of(part_of(chars.as_slice(), n, chars.len()).as_slice()));
        }
        n = n - 1;
    }
    None
}

/// The extensions of resources that materials depend on.
pub open spec fn is_depot_extension(found: Seq<char>) -> bool {
    found == "mi"@ || found == "mt"@ || found == "remt"@ || found == "xbm"@ || found == "mlmask"@
        || found == "mlsetup"@ || found == "mltemplate"@ || found == "gradient"@ || found == "hp"@
        || found == "texarray"@
}

/// Whether a path has an extension of resources that materials depend on.
pub open spec fn names_dependency(path: Seq<char>) -> bool {
    match extension_of(path) {
        Some(found) => is_depot_extension(found),
        None => false,
    }
}

/// Tests whether an extension is one of resources that materials depend on.
pub fn depot_extension(found: &str) -> (result: bool)
    ensures
        result == is_depot_extension(found@),
{
    same_text(found, "mi") || same_text(found, "mt") || same_text(found, "remt") || same_text(
        found,
        "xbm",
    ) || same_text(found, "mlmask") || same_text(found, "mlsetup") || same_text(found, "mltemplate")
        || same_text(found, "gradient") || same_text(found, "hp") || same_text(found, "texarray")
}

/// Tests whether a path names a resource that materials depend on.
pub fn is_dependency(path: &str) -> (result: bool)
    ensures
        result == names_dependency(path@),
{
    match extension(path) {
        Some(found) => depot_extension(found.as_str()),
        None => false,
    }
}

/// The paths that a value names, in the order in which they stand.
pub open spec fn paths_in(m: value::Model) -> Seq<Seq<char>>
    decreases m,
{
    match m {
        value::Model::Object(entries) => own_path(m) + paths_in_entries(entries),
        value::Model::Array(items) => paths_in_items(items),
        value::Model::Text(text) => if names_dependency(text) {
            seq![text]
        } else {
            Seq::empty()
        },
        _ => Seq::empty(),
    }
}

/// The path that an object names itself.
pub open spec fn own_path(m: value::Model) -> Seq<Seq<char>> {
    match value::member(m, "DepotPath"@) {
        None => Seq::empty(),
        Some(inner) => match value::member(inner, "$value"@) {
            None => Seq::empty(),
            Some(found) => match value::text_of(found) {
                None => Seq::empty(),
                Some(path) => seq![path],
            },
        },
    }
}

/// The paths that items name.
pub open spec fn paths_in_items(items: Seq<value::Model>) -> Seq<Seq<char>>
    decreases items,
{
    if items.len() == 0 {
        Seq::empty()
    } else {
        paths_in_items(items.drop_last()) + paths_in(items.last())
    }
}

/// The paths that entries name.
pub open spec fn paths_in_entries(entries: Seq<(Seq<char>, value::Model)>) -> Seq<Seq<char>>
    decreases entries,
{
    if entries.len() == 0 {
        Seq::empty()
    } else {
        paths_in_entries(entries.drop_last()) + paths_in(entries.last().1)
    }
}

/// Texts as they are.
pub open spec fn texts(list: Seq<String>) -> Seq<Seq<char>> {
    list.map_values(|text: String| text@)
}

fn push_path(queue: &mut Vec<String>, path: &str)
    ensures
        texts(final(queue)@) == texts(old(queue)@).push(path@),
{
    let copy: String = copy_text(path);
    queue.push(copy);
    assert(texts(queue@) =~= texts(old(queue)@).push(path@));
}

/// Collects the paths that a value names.
pub fn collect_depot_paths(value: &Value, queue: &mut Vec<String>)
    ensures
        texts(final(queue)@) == texts(old(queue)@) + paths_in(value@),
    decreases value,
{
    let ghost before = texts(queue@);
    match value {
        Value::Object(entries) => {
            let ghost all = value::entry_models(entries@);
            proof {
                assert(decreases_to!(value => value->Object_0));
                assert(decreases_to!(entries => entries@));
                value::lemma_entry_models(entries@);
            }
            if let Some(inner) = value.get("DepotPath") {
                if let Some(found) = inner.get("$value") {
                    if let Some(path) = found.as_text() {
                        push_path(queue, path);
                        assert(before.push(path@) =~= before + seq![path@]);
                    }
                }
            }
            assert(texts(queue@) =~= before + own_path(value@));
            let ghost start = texts(queue@);
            assert(all.subrange(0, 0) =~= Seq::empty());
            let mut i: usize = 0;
            while i < entries.len()
                invariant
                    i <= entries@.len(),
                    decreases_to!(value => entries@),
                    all == value::entry_models(entries@),
                    all.len() == entries@.len(),
                    forall|k: int|
                        0 <= k < all.len() ==> #[trigger] all[k] == (
                            entries@[k].0@,
                            value::model(entries@[k].1),
                        ),
                    texts(queue@) == start + paths_in_entries(all.subrange(0, i as int)),
                decreases entries@.len() - i,
            {
                proof {
                    assert(decreases_to!(entries@ => entries@[i as int]));
                    assert(decreases_to!(entries@[i as int] => entries@[i as int].1));
                    assert(all.subrange(0, i + 1).drop_last() =~= all.subrange(0, i as int));
                    assert(all.subrange(0, i + 1).last() == all[i as int]);
                }
                collect_depot_paths(&entries[i].1, queue);
                assert(texts(queue@) =~= start + paths_in_entries(all.subrange(0, i + 1)));
                i = i + 1;
            }
            assert(all.subrange(0, i as int) =~= all);
            assert(texts(queue@) =~= before + paths_in(value@));
        },
        Value::Array(items) => {
            let ghost all = value::models(items@);
            proof {
                assert(decreases_to!(value => value->Array_0));
                assert(decreases_to!(items => items@));
                value::lemma_models(items@);
                assert(all.subrange(0, 0) =~= Seq::empty());
                assert(before + Seq::empty() =~= before);
            }
            let mut i: usize = 0;
            while i < items.len()
                invariant
                    i <= items@.len(),
                    decreases_to!(value => items@),
                    all == value::models(items@),
                    all.len() == items@.len(),
                    forall|k: int|
                        0 <= k < all.len() ==> #[trigger] all[k] == value::model(items@[k]),
                    texts(queue@) == before + paths_in_items(all.subrange(0, i as int)),
                decreases items@.len() - i,
            {
                proof {
                    assert(decreases_to!(items@ => items@[i as int]));
                    assert(all.subrange(0, i + 1).drop_last() =~= all.subrange(0, i as int));
                    assert(all.subrange(0, i + 1).last() == all[i as int]);
                }
                collect_depot_paths(&items[i], queue);
                assert(texts(queue@) =~= before + paths_in_items(all.subrange(0, i + 1)));
                i = i + 1;
            }
            assert(all.subrange(0, i as int) =~= all);
        },
        Value::Text(text) => {
            if is_dependency(text.as_str()) {
                push_path(queue, text.as_str());
                assert(before.push(text@) =~= before + seq![text@]);
            } else {
                assert(before + Seq::empty() =~= before);
            }
        },
        _ => {
            assert(before + Seq::empty() =~= before);
        },
    }
}

/// Whether an entry is left out of a sidecar.
pub open spec fn left_out(key: Seq<char>) -> bool {
    (key.len() > 0 && key[0] == '$') || key == "Flags"@
}

/// A value as a sidecar shows it: references as their paths, names as texts,
/// and objects without what only the format needs.
pub open spec fn shown(m: value::Model) -> value::Model
    decreases m,
{
    match reference(m) {
        Some(path) => value::Model::Text(path),
        None => match m {
            value::Model::Object(entries) => if value::member(m, "$value"@) is Some {
                proof {
                    lemma_found(entries, "$value"@);
                }
                shown(value::member(m, "$value"@)->0)
            } else {
                value::Model::Object(shown_entries(entries))
            },
            value::Model::Array(items) => value::Model::Array(shown_items(items)),
            _ => m,
        },
    }
}

/// A value that is found is smaller than the entries among which it stands.
pub proof fn lemma_found(entries: Seq<(Seq<char>, value::Model)>, key: Seq<char>)
    ensures
        entries::find(entries, key) matches Some(found) ==> decreases_to!(entries => found),
    decreases entries.len(),
{
    entries::lemma_index_of(entries, key);
    match entries::find(entries, key) {
        Some(found) => {
            let k = entries::index_of(entries, key)->0;
            assert(entries[k as int].1 == found);
            assert(decreases_to!(entries => entries[k as int]));
            assert(decreases_to!(entries[k as int] => entries[k as int].1));
        },
        None => {},
    }
}

/// Items as a sidecar shows them.
pub open spec fn shown_items(items: Seq<value::Model>) -> Seq<value::Model>
    decreases items,
{
    if items.len() == 0 {
        Seq::empty()
    } else {
        shown_items(items.drop_last()).push(shown(items.last()))
    }
}

/// Entries as a sidecar shows them.
pub open spec fn shown_entries(entries: Seq<(Seq<char>, value::Model)>) -> Seq<
    (Seq<char>, value::Model),
>
    decreases entries,
{
    if entries.len() == 0 {
        Seq::empty()
    } else if left_out(entries.last().0) {
        shown_entries(entries.drop_last())
    } else {
        entries::put(shown_entries(entries.drop_last()), entries.last().0, shown(entries.last().1))
    }
}

fn starts_with_dollar(key: &str) -> (result: bool)
    ensures
        result == (key@.len() > 0 && key@[0] == '$'),
{
    let chars: Vec<char> = chars_of(key);
    chars.len() > 0 && chars[0] == '$'
}

/// Makes a value as a sidecar shows it.
pub fn normalize_value(value: &Value) -> (result: Value)
    ensures
        result@ == shown(value@),
    decreases value,
{
    if let Some(path) = find_reference(value) {
        return Value::text(path);
    }
    match value {
        Value::Object(entries) => {
            let ghost all = value::entry_models(entries@);
            proof {
                assert(decreases_to!(value => value->Object_0));
                assert(decreases_to!(entries => entries@));
                value::lemma_entry_models(entries@);
                assert(all.subrange(0, 0) =~= Seq::empty());
            }
            if let Some(at) = entry_position(entries, "$value") {
                proof {
                    assert(decreases_to!(entries@ => entries@[at as int]));
                    assert(decreases_to!(entries@[at as int] => entries@[at as int].1));
                }
                return normalize_value(&entries[at].1);
            }
            let mut fields: Vec<(String, Value)> = Vec::new();
            assert(value::entry_models(fields@) =~= Seq::empty());
            let mut i: usize = 0;
            while i < entries.len()
                invariant
                    i <= entries@.len(),
                    decreases_to!(value => entries@),
                    all == value::entry_models(entries@),
                    all.len() == entries@.len(),
                    forall|k: int|
                        0 <= k < all.len() ==> #[trigger] all[k] == (
                            entries@[k].0@,
                            value::model(entries@[k].1),
                        ),
                    value::entry_models(fields@) == shown_entries(all.subrange(0, i as int)),
                decreases entries@.len() - i,
            {
                proof {
                    assert(decreases_to!(entries@ => entries@[i as int]));
                    assert(decreases_to!(entries@[i as int] => entries@[i as int].1));
                    assert(all.subrange(0, i + 1).drop_last() =~= all.subrange(0, i as int));
                    assert(all.subrange(0, i + 1).last() == all[i as int]);
                }
                let key: &str = entries[i].0.as_str();
                if !starts_with_dollar(key) && !same_text(key, "Flags") {
                    let item: Value = normalize_value(&entries[i].1);
                    set_entry(&mut fields, key, item);
                }
                i = i + 1;
            }
            assert(all.subrange(0, i as int) =~= all);
            Value::Object(fields)
        },
        Value::Array(items) => {
            let ghost all = value::models(items@);
            proof {
                assert(decreases_to!(value => value->Array_0));
                assert(decreases_to!(items => items@));
                value::lemma_models(items@);
                assert(all.subrange(0, 0) =~= Seq::empty());
            }
            let mut out: Vec<Value> = Vec::new();
            assert(value::models(out@) =~= Seq::empty());
            let mut i: usize = 0;
            while i < items.len()
                invariant
                    i <= items@.len(),
                    decreases_to!(value => items@),
                    all == value::models(items@),
                    all.len() == items@.len(),
                    forall|k: int|
                        0 <= k < all.len() ==> #[trigger] all[k] == value::model(items@[k]),
                    value::models(out@) == shown_items(all.subrange(0, i as int)),
                decreases items@.len() - i,
            {
                proof {
                    assert(decreases_to!(items@ => items@[i as int]));
                    assert(all.subrange(0, i + 1).drop_last() =~= all.subrange(0, i as int));
                    assert(all.subrange(0, i + 1).last() == all[i as int]);
                }
                let item: Value = normalize_value(&items[i]);
                proof {
                    value::lemma_models_push(out@, item);
                }
                out.push(item);
                i = i + 1;
            }
            assert(all.subrange(0, i as int) =~= all);
            Value::Array(out)
        },
        _ => value.copy(),
    }
}

/// Turns a depot path into a path below a repository. A path that starts at
/// the root, or at the directory itself, or leads up, is refused.
pub fn repo_path(depot: &str) -> (result: Result<String, MaterialError>)
    ensures
        if archive::is_safe(depot@) {
            result matches Ok(r) && r@ == text::replaced(depot@, '\\', '/')
        } else {
            result matches Err(e) && e@ == Fault::Malformed(
                "depot path is not relative and normalized"@,
            )
        },
{
    match safe_depot_path(depot) {
        Ok(path) => Ok(path),
        Err(_) => Err(malformed("depot path is not relative and normalized")),
    }
}

} // verus!
