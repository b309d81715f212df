//! The materials of a mesh: where each stands, what it inherits, and the
//! sidecar that shows them all.

use crate::entries;
use crate::material;
use crate::material::{
    array, flag, malformed, member, red_depot_path, red_string, string, texts, usize_or_zero,
    usize_value, Fault, MaterialError,
};
use crate::mesh_gltf;
use crate::mesh_gltf::new_text_values;
use crate::mesh;
use crate::number_text;
use crate::number_text::decimal_text;
use crate::schema::among;
use crate::text;
use crate::text::{decode_base64, push_text, same_text};
use crate::value;
use crate::value::{copy_text, find_entry, set_entry, Value};
use vstd::prelude::*;

verus! {

/// The texts of the first `n` items.
pub open spec fn red_texts(items: Seq<value::Model>, n: nat) -> Result<Seq<Seq<char>>, Fault>
    decreases n,
{
    if n == 0 {
        Ok(Seq::empty())
    } else {
        match red_texts(items, (n - 1) as nat) {
            Err(f) => Err(f),
            Ok(before) => match material::red_text(items[n - 1]) {
                Err(f) => Err(f),
                Ok(text) => Ok(before.push(text)),
            },
        }
    }
}

proof fn lemma_red_texts_fail(items: Seq<value::Model>, k: nat, n: nat)
    requires
        k <= n,
        red_texts(items, k) is Err,
    ensures
        red_texts(items, n) == red_texts(items, k),
    decreases n,
{
    if k < n {
        lemma_red_texts_fail(items, k, (n - 1) as nat);
    }
}

#[verifier::loop_isolation(false)]
fn list_red_texts(items: &Vec<Value>) -> (result: Result<Vec<String>, MaterialError>)
    ensures
        match red_texts(value::models(items@), items@.len()) {
            Ok(found) => result matches Ok(r) && texts(r@) == found,
            Err(f) => result matches Err(e) && e@ == f,
        },
{
    let ghost all = value::models(items@);
    proof {
        value::lemma_models(items@);
    }
    let mut out: Vec<String> = Vec::new();
    assert(texts(out@) =~= Seq::empty());
    let mut i: usize = 0;
    while i < items.len()
        invariant
            i <= items@.len(),
            red_texts(all, i as nat) == Ok::<Seq<Seq<char>>, Fault>(texts(out@)),
        decreases items@.len() - i,
    {
        match red_string(&items[i]) {
            Err(error) => {
                proof {
                    lemma_red_texts_fail(all, (i + 1) as nat, all.len());
                }
                return Err(error);
            },
            Ok(found) => {
                let ghost before = out@;
                let ghost content = found@;
                out.push(found);
                assert(texts(out@) =~= texts(before).push(content));
            },
        }
        i = i + 1;
    }
    Ok(out)
}

/// The name of an appearance: its own, or one made of its place.
pub open spec fn appearance_name(data: value::Model, index: nat) -> Result<Seq<char>, Fault> {
    match value::member(data, "name"@) {
        None => Ok("default"@ + number_text::decimal(index)),
        Some(named) => match material::red_text(named) {
            Err(f) => Err(f),
            Ok(name) => if name.len() == 0 {
                Ok("default"@ + number_text::decimal(index))
            } else {
                Ok(name)
            },
        },
    }
}

/// The materials that an appearance names.
pub open spec fn appearance_materials(data: value::Model) -> Result<Seq<Seq<char>>, Fault> {
    match value::member(data, "chunkMaterials"@) {
        Some(value::Model::Array(items)) => red_texts(items, items.len()),
        _ => material::bad("mesh appearance has no chunk material array"@),
    }
}

/// What an appearance holds: its data, or itself.
pub open spec fn appearance_data(item: value::Model) -> value::Model {
    match value::member(item, "Data"@) {
        Some(data) => data,
        None => item,
    }
}

/// The first `n` appearances under their names.
pub open spec fn appearances(items: Seq<value::Model>, n: nat) -> Result<
    Seq<(Seq<char>, value::Model)>,
    Fault,
>
    decreases n,
{
    if n == 0 {
        Ok(Seq::empty())
    } else {
        match appearances(items, (n - 1) as nat) {
            Err(f) => Err(f),
            Ok(before) => {
                let data = appearance_data(items[n - 1]);
                match appearance_name(data, (n - 1) as nat) {
                    Err(f) => Err(f),
                    Ok(name) => match appearance_materials(data) {
                        Err(f) => Err(f),
                        Ok(names) => Ok(entries::put(before, name, mesh_gltf::text_values(names))),
                    },
                }
            },
        }
    }
}

proof fn lemma_appearances_fail(items: Seq<value::Model>, k: nat, n: nat)
    requires
        k <= n,
        appearances(items, k) is Err,
    ensures
        appearances(items, n) == appearances(items, k),
    decreases n,
{
    if k < n {
        lemma_appearances_fail(items, k, (n - 1) as nat);
    }
}

fn find_appearance_name(data: &Value, index: usize) -> (result: Result<String, MaterialError>)
    ensures
        match appearance_name(data@, index as nat) {
            Ok(name) => result matches Ok(r) && r@ == name,
            Err(f) => result matches Err(e) && e@ == f,
        },
{
    if let Some(named) = data.get("name") {
        match red_string(named) {
            Err(error) => return Err(error),
            Ok(name) => {
                if !same_text(name.as_str(), "") {
                    proof {
                        reveal_strlit("");
                        if name@.len() == 0 {
                            assert(name@ =~= ""@);
                        }
                    }
                    return Ok(name);
                }
                proof {
                    reveal_strlit("");
                }
            },
        }
    }
    let mut name: String = copy_text("default");
    push_text(&mut name, decimal_text(index as u64).as_str());
    Ok(name)
}

fn list_appearance_materials(data: &Value) -> (result: Result<Vec<String>, MaterialError>)
    ensures
        match appearance_materials(data@) {
            Ok(found) => result matches Ok(r) && texts(r@) == found,
            Err(f) => result matches Err(e) && e@ == f,
        },
{
    match data.get("chunkMaterials") {
        Some(Value::Array(items)) => {
            proof {
                value::lemma_models(items@);
            }
            list_red_texts(items)
        },
        _ => Err(malformed("mesh appearance has no chunk material array")),
    }
}

/// Reads the appearances of a mesh.
#[verifier::loop_isolation(false)]
pub fn decode_appearances(items: &Vec<Value>) -> (result: Result<
    Vec<(String, Value)>,
    MaterialError,
>)
    ensures
        match appearances(value::models(items@), items@.len()) {
            Ok(found) => result matches Ok(r) && value::entry_models(r@) == found,
            Err(f) => result matches Err(e) && e@ == f,
        },
{
    let ghost all = value::models(items@);
    proof {
        value::lemma_models(items@);
    }
    let mut out: Vec<(String, Value)> = Vec::new();
    assert(value::entry_models(out@) =~= Seq::empty());
    let mut i: usize = 0;
    while i < items.len()
        invariant
            i <= items@.len(),
            appearances(all, i as nat) == Ok::<Seq<(Seq<char>, value::Model)>, Fault>(
                value::entry_models(out@),
            ),
        decreases items@.len() - i,
    {
        assert(all[i as int] == value::model(items@[i as int]));
        let data: &Value = match items[i].get("Data") {
            Some(data) => data,
            None => &items[i],
        };
        let name: String = match find_appearance_name(data, i) {
            Ok(name) => name,
            Err(error) => {
                proof {
                    lemma_appearances_fail(all, (i + 1) as nat, all.len());
                }
                return Err(error);
            },
        };
        match list_appearance_materials(data) {
            Ok(names) => {
                assert(mesh::texts(names@) =~= texts(names@));
                set_entry(&mut out, name.as_str(), new_text_values(&names));
            },
            Err(error) => {
                proof {
                    lemma_appearances_fail(all, (i + 1) as nat, all.len());
                }
                return Err(error);
            },
        }
        i = i + 1;
    }
    Ok(out)
}

/// Where the document of a material stands.
pub ghost enum SourceModel {
    Local(nat, nat),
    External(Seq<char>),
}

/// Where the document of a material stands: in the bytes of the mesh, or in a
/// resource of its own.
#[derive(Debug, PartialEq, Eq)]
pub enum Source {
    Local { start: usize, end: usize },
    External { path: String },
}

impl View for Source {
    type V = SourceModel;

    open spec fn view(&self) -> SourceModel {
        match self {
            Source::Local { start, end } => SourceModel::Local(*start as nat, *end as nat),
            Source::External { path } => SourceModel::External(path@),
        }
    }
}

/// The part of the mesh's bytes that a local material takes.
pub open spec fn local_source(headers: Seq<value::Model>, index: nat, length: nat) -> Result<
    SourceModel,
    Fault,
> {
    if index >= headers.len() {
        material::bad("local material index is outside the header table"@)
    } else {
        let header = headers[index as int];
        match value::member(header, "size"@) {
            None => material::bad("local material header has no size"@),
            Some(size) => match material::size_of(size) {
                None => material::bad("local material size is invalid"@),
                Some(size) => {
                    let start = material::size_or_zero(header, "offset"@);
                    if start + size > usize::MAX {
                        material::bad("local material byte range overflows"@)
                    } else if start + size > length {
                        material::bad("local material byte range is outside the buffer"@)
                    } else {
                        Ok(SourceModel::Local(start, start + size))
                    }
                },
            },
        }
    }
}

/// Where the document of an entry stands.
pub open spec fn source_of(
    entry: value::Model,
    headers: Seq<value::Model>,
    external: Seq<value::Model>,
    length: nat,
) -> Result<SourceModel, Fault> {
    let index = material::size_or_zero(entry, "index"@);
    if material::flag_in(entry, "isLocalInstance"@) {
        local_source(headers, index, length)
    } else if index >= external.len() {
        material::bad("external material index is outside the table"@)
    } else {
        match material::depot_path(external[index as int]) {
            Err(f) => Err(f),
            Ok(path) => Ok(SourceModel::External(path)),
        }
    }
}

/// The name of an entry.
pub open spec fn entry_name(entry: value::Model) -> Result<Seq<char>, Fault> {
    match value::member(entry, "name"@) {
        None => material::bad("material entry has no name"@),
        Some(name) => material::red_text(name),
    }
}

/// Whether a material is wanted: all are, unless some are selected.
pub open spec fn wanted(selected: Option<Seq<Seq<char>>>, name: Seq<char>) -> bool {
    match selected {
        None => true,
        Some(names) => names.contains(name),
    }
}

/// Where the documents of the first `n` entries stand that are wanted.
pub open spec fn sources(
    items: Seq<value::Model>,
    headers: Seq<value::Model>,
    external: Seq<value::Model>,
    length: nat,
    selected: Option<Seq<Seq<char>>>,
    n: nat,
) -> Result<Seq<(Seq<char>, SourceModel)>, Fault>
    decreases n,
{
    if n == 0 {
        Ok(Seq::empty())
    } else {
        match sources(items, headers, external, length, selected, (n - 1) as nat) {
            Err(f) => Err(f),
            Ok(before) => match entry_name(items[n - 1]) {
                Err(f) => Err(f),
                Ok(name) => if !wanted(selected, name) {
                    Ok(before)
                } else {
                    match source_of(items[n - 1], headers, external, length) {
                        Err(f) => Err(f),
                        Ok(source) => Ok(before.push((name, source))),
                    }
                },
            },
        }
    }
}

proof fn lemma_sources_fail(
    items: Seq<value::Model>,
    headers: Seq<value::Model>,
    external: Seq<value::Model>,
    length: nat,
    selected: Option<Seq<Seq<char>>>,
    k: nat,
    n: nat,
)
    requires
        k <= n,
        sources(items, headers, external, length, selected, k) is Err,
    ensures
        sources(items, headers, external, length, selected, n) == sources(
            items,
            headers,
            external,
            length,
            selected,
            k,
        ),
    decreases n,
{
    if k < n {
        lemma_sources_fail(items, headers, external, length, selected, k, (n - 1) as nat);
    }
}

fn find_local(headers: &Vec<Value>, index: usize, length: usize) -> (result: Result<
    Source,
    MaterialError,
>)
    ensures
        match local_source(value::models(headers@), index as nat, length as nat) {
            Ok(source) => result matches Ok(r) && r@ == source,
            Err(f) => result matches Err(e) && e@ == f,
        },
{
    proof {
        value::lemma_models(headers@);
    }
    if index >= headers.len() {
        return Err(malformed("local material index is outside the header table"));
    }
    let header: &Value = &headers[index];
    match header.get("size") {
        None => Err(malformed("local material header has no size")),
        Some(size) => match usize_value(size) {
            None => Err(malformed("local material size is invalid")),
            Some(size) => {
                let start: usize = usize_or_zero(header, "offset");
                if size > usize::MAX - start {
                    Err(malformed("local material byte range overflows"))
                } else if start + size > length {
                    Err(malformed("local material byte range is outside the buffer"))
                } else {
                    Ok(Source::Local { start, end: start + size })
                }
            },
        },
    }
}

fn find_source(
    entry: &Value,
    headers: &Vec<Value>,
    external: &Vec<Value>,
    length: usize,
) -> (result: Result<Source, MaterialError>)
    ensures
        match source_of(
            entry@,
            value::models(headers@),
            value::models(external@),
            length as nat,
        ) {
            Ok(source) => result matches Ok(r) && r@ == source,
            Err(f) => result matches Err(e) && e@ == f,
        },
{
    proof {
        value::lemma_models(external@);
    }
    let index: usize = usize_or_zero(entry, "index");
    if flag(entry, "isLocalInstance") {
        return find_local(headers, index, length);
    }
    if index >= external.len() {
        return Err(malformed("external material index is outside the table"));
    }
    match red_depot_path(&external[index]) {
        Ok(path) => Ok(Source::External { path }),
        Err(error) => Err(error),
    }
}

fn find_entry_name(entry: &Value) -> (result: Result<String, MaterialError>)
    ensures
        match entry_name(entry@) {
            Ok(name) => result matches Ok(r) && r@ == name,
            Err(f) => result matches Err(e) && e@ == f,
        },
{
    match entry.get("name") {
        None => Err(malformed("material entry has no name")),
        Some(name) => red_string(name),
    }
}

/// Named sources as they are.
pub open spec fn source_models(list: Seq<(String, Source)>) -> Seq<(Seq<char>, SourceModel)> {
    list.map_values(|item: (String, Source)| (item.0@, item.1@))
}

/// Names, if some are selected.
pub open spec fn selection(names: Option<&Vec<String>>) -> Option<Seq<Seq<char>>> {
    match names {
        Some(names) => Some(texts(names@)),
        None => None,
    }
}

fn is_wanted(selected: Option<&Vec<String>>, name: &str) -> (result: bool)
    ensures
        result == wanted(selection(selected), name@),
{
    match selected {
        None => true,
        Some(names) => {
            assert(crate::schema::texts(names@) =~= texts(names@));
            among(names, name)
        },
    }
}

#[verifier::loop_isolation(false)]
fn list_sources(
    items: &Vec<Value>,
    headers: &Vec<Value>,
    external: &Vec<Value>,
    length: usize,
    selected: Option<&Vec<String>>,
) -> (result: Result<Vec<(String, Source)>, MaterialError>)
    ensures
        match sources(
            value::models(items@),
            value::models(headers@),
            value::models(external@),
            length as nat,
            selection(selected),
            items@.len(),
        ) {
            Ok(found) => result matches Ok(r) && source_models(r@) == found,
            Err(f) => result matches Err(e) && e@ == f,
        },
{
    let ghost all = value::models(items@);
    let ghost tables = value::models(headers@);
    let ghost outside = value::models(external@);
    let ghost names = selection(selected);
    proof {
        value::lemma_models(items@);
    }
    let mut out: Vec<(String, Source)> = Vec::new();
    assert(source_models(out@) =~= Seq::empty());
    let mut i: usize = 0;
    while i < items.len()
        invariant
            i <= items@.len(),
            sources(all, tables, outside, length as nat, names, i as nat) == Ok::<
                Seq<(Seq<char>, SourceModel)>,
                Fault,
            >(source_models(out@)),
        decreases items@.len() - i,
    {
        assert(all[i as int] == value::model(items@[i as int]));
        let name: String = match find_entry_name(&items[i]) {
            Ok(name) => name,
            Err(error) => {
                proof {
                    lemma_sources_fail(
                        all,
                        tables,
                        outside,
                        length as nat,
                        names,
                        (i + 1) as nat,
                        all.len(),
                    );
                }
                return Err(error);
            },
        };
        if is_wanted(selected, name.as_str()) {
            match find_source(&items[i], headers, external, length) {
                Ok(source) => {
                    let ghost before = out@;
                    let ghost content = (name@, source@);
                    out.push((name, source));
                    assert(source_models(out@) =~= source_models(before).push(content));
                },
                Err(error) => {
                    proof {
                        lemma_sources_fail(
                            all,
                            tables,
                            outside,
                            length as nat,
                            names,
                            (i + 1) as nat,
                            all.len(),
                        );
                    }
                    return Err(error);
                },
            }
        }
        i = i + 1;
    }
    Ok(out)
}

/// What the sidecar of a mesh is made from.
pub ghost struct PlanModel {
    pub embedded: Seq<u8>,
    pub sources: Seq<(Seq<char>, SourceModel)>,
    pub appearances: Seq<(Seq<char>, value::Model)>,
}

/// The names that an appearance selects, out of all appearances.
pub open spec fn selected_names(
    looks: Seq<(Seq<char>, value::Model)>,
    appearance: Option<Seq<char>>,
) -> Result<Option<Seq<Seq<char>>>, Fault> {
    match appearance {
        None => Ok(None),
        Some(name) => match entries::find(looks, name) {
            Some(value::Model::Array(items)) => match red_texts(items, items.len()) {
                Err(f) => Err(f),
                Ok(names) => Ok(Some(names)),
            },
            _ => material::bad("requested mesh appearance was not found"@),
        },
    }
}

/// The appearances that a sidecar shows: all, or the one that is selected.
pub open spec fn shown_appearances(
    looks: Seq<(Seq<char>, value::Model)>,
    appearance: Option<Seq<char>>,
) -> Seq<(Seq<char>, value::Model)> {
    match appearance {
        None => looks,
        Some(name) => match entries::find(looks, name) {
            Some(found) => entries::put(Seq::empty(), name, found),
            None => Seq::empty(),
        },
    }
}

/// The items of an array member, none where it is missing or something else.
pub open spec fn items_or_none(m: value::Model, name: Seq<char>) -> Seq<value::Model> {
    match value::member(m, name) {
        Some(value::Model::Array(items)) => items,
        _ => Seq::empty(),
    }
}

/// The bytes in which local materials stand, and the table of their parts.
pub open spec fn local_materials(root: value::Model) -> Result<(Seq<u8>, Seq<value::Model>), Fault> {
    match material::field(root, "localMaterialBuffer"@) {
        Err(f) => Err(f),
        Ok(buffer) => match material::field(buffer, "rawData"@) {
            Err(f) => Err(f),
            Ok(raw) => match material::text_in(raw, "Bytes"@) {
                Err(f) => Err(f),
                Ok(encoded) => match text::base64_bytes(encoded) {
                    None => Err(Fault::Base64),
                    Some(bytes) => match material::items_in(buffer, "rawDataHeaders"@) {
                        Err(f) => Err(f),
                        Ok(headers) => Ok((bytes, headers)),
                    },
                },
            },
        },
    }
}

/// What the sidecar of a mesh is made from, given the mesh's document.
pub open spec fn plan_of(document: value::Model, appearance: Option<Seq<char>>) -> Result<
    PlanModel,
    Fault,
> {
    match material::field(document, "Data"@) {
        Err(f) => Err(f),
        Ok(data) => match material::field(data, "RootChunk"@) {
            Err(f) => Err(f),
            Ok(root) => match material::items_in(root, "materialEntries"@) {
                Err(f) => Err(f),
                Ok(items) => match local_materials(root) {
                    Err(f) => Err(f),
                    Ok((bytes, headers)) => match material::items_in(root, "appearances"@) {
                        Err(f) => Err(f),
                        Ok(list) => match appearances(list, list.len()) {
                            Err(f) => Err(f),
                            Ok(looks) => match selected_names(looks, appearance) {
                                Err(f) => Err(f),
                                Ok(names) => match sources(
                                    items,
                                    headers,
                                    items_or_none(root, "externalMaterials"@),
                                    bytes.len(),
                                    names,
                                    items.len(),
                                ) {
                                    Err(f) => Err(f),
                                    Ok(found) => Ok(
                                        PlanModel {
                                            embedded: bytes,
                                            sources: found,
                                            appearances: shown_appearances(looks, appearance),
                                        },
                                    ),
                                },
                            },
                        },
                    },
                },
            },
        },
    }
}

/// What the sidecar of a mesh is made from.
#[derive(Debug)]
pub struct MaterialPlan {
    pub embedded: Vec<u8>,
    pub sources: Vec<(String, Source)>,
    pub appearances: Vec<(String, Value)>,
}

impl View for MaterialPlan {
    type V = PlanModel;

    open spec fn view(&self) -> PlanModel {
        PlanModel {
            embedded: self.embedded@,
            sources: source_models(self.sources@),
            appearances: value::entry_models(self.appearances@),
        }
    }
}

fn read_local_materials<'a>(root: &'a Value) -> (result: Result<
    (Vec<u8>, &'a Vec<Value>),
    MaterialError,
>)
    ensures
        match local_materials(root@) {
            Ok((bytes, headers)) => result matches Ok(r) && r.0@ == bytes && value::models(r.1@)
                == headers,
            Err(f) => result matches Err(e) && e@ == f,
        },
{
    let buffer: &Value = match member(root, "localMaterialBuffer") {
        Ok(buffer) => buffer,
        Err(error) => return Err(error),
    };
    let raw: &Value = match member(buffer, "rawData") {
        Ok(raw) => raw,
        Err(error) => return Err(error),
    };
    let encoded: &str = match string(raw, "Bytes") {
        Ok(encoded) => encoded,
        Err(error) => return Err(error),
    };
    let bytes: Vec<u8> = match decode_base64(encoded) {
        Some(bytes) => bytes,
        None => return Err(MaterialError::Base64),
    };
    match array(buffer, "rawDataHeaders") {
        Ok(headers) => Ok((bytes, headers)),
        Err(error) => Err(error),
    }
}

/// A text, if there is one.
pub open spec fn optional_text(text: Option<&str>) -> Option<Seq<char>> {
    match text {
        Some(text) => Some(text@),
        None => None,
    }
}

fn select_names(looks: &Vec<(String, Value)>, appearance: Option<&str>) -> (result: Result<
    Option<Vec<String>>,
    MaterialError,
>)
    ensures
        match selected_names(value::entry_models(looks@), optional_text(appearance)) {
            Ok(None) => result matches Ok(None),
            Ok(Some(names)) => result matches Ok(Some(r)) && texts(r@) == names,
            Err(f) => result matches Err(e) && e@ == f,
        },
{
    match appearance {
        None => Ok(None),
        Some(name) => match find_entry(looks, name) {
            Some(Value::Array(items)) => {
                proof {
                    value::lemma_models(items@);
                }
                match list_red_texts(items) {
                    Ok(names) => Ok(Some(names)),
                    Err(error) => Err(error),
                }
            },
            _ => Err(malformed("requested mesh appearance was not found")),
        },
    }
}

fn select_appearances(looks: Vec<(String, Value)>, appearance: Option<&str>) -> (result: Vec<
    (String, Value),
>)
    ensures
        value::entry_models(result@) == shown_appearances(
            value::entry_models(looks@),
            optional_text(appearance),
        ),
{
    match appearance {
        None => looks,
        Some(name) => {
            let mut out: Vec<(String, Value)> = Vec::new();
            assert(value::entry_models(out@) =~= Seq::empty());
            if let Some(found) = find_entry(&looks, name) {
                set_entry(&mut out, name, found.copy());
            }
            out
        },
    }
}

/// Plans the sidecar of a mesh out of the mesh's document.
pub fn plan_materials(document: &Value, appearance: Option<&str>) -> (result: Result<
    MaterialPlan,
    MaterialError,
>)
    ensures
        match plan_of(document@, optional_text(appearance)) {
            Ok(plan) => result matches Ok(r) && r@ == plan,
            Err(f) => result matches Err(e) && e@ == f,
        },
{
    let data: &Value = match member(document, "Data") {
        Ok(data) => data,
        Err(error) => return Err(error),
    };
    let root: &Value = match member(data, "RootChunk") {
        Ok(root) => root,
        Err(error) => return Err(error),
    };
    let items: &Vec<Value> = match array(root, "materialEntries") {
        Ok(items) => items,
        Err(error) => return Err(error),
    };
    let (embedded, headers): (Vec<u8>, &Vec<Value>) = match read_local_materials(root) {
        Ok(parts) => parts,
        Err(error) => return Err(error),
    };
    let none: Vec<Value> = Vec::new();
    assert(value::models(none@) =~= Seq::empty());
    let external: &Vec<Value> = match root.get("externalMaterials") {
        Some(Value::Array(list)) => list,
        _ => &none,
    };
    let list: &Vec<Value> = match array(root, "appearances") {
        Ok(list) => list,
        Err(error) => return Err(error),
    };
    proof {
        value::lemma_models(list@);
        value::lemma_models(items@);
    }
    let looks: Vec<(String, Value)> = match decode_appearances(list) {
        Ok(looks) => looks,
        Err(error) => return Err(error),
    };
    let names: Option<Vec<String>> = match select_names(&looks, appearance) {
        Ok(names) => names,
        Err(error) => return Err(error),
    };
    let selected: Option<&Vec<String>> = match &names {
        Some(names) => Some(names),
        None => None,
    };
    match list_sources(items, headers, external, embedded.len(), selected) {
        Ok(sources) => Ok(
            MaterialPlan { embedded, sources, appearances: select_appearances(looks, appearance) },
        ),
        Err(error) => Err(error),
    }
}

} // verus!
