//! Materials in the standard form of glTF: which way a template is baked, which
//! materials a sidecar selects, and how they are attached to a document.
//! Floats are handed in as their bits.

use crate::archive_writer;
use crate::archive_writer::digest_sha1;
use crate::binary;
use crate::binary::write_u32;
use crate::entries;
use crate::material_sidecar;
use crate::material_sidecar::normalize_path;
use crate::red_types;
use crate::red_types::hex;
use crate::sequence::append;
use crate::text::same_text;
use crate::value;
use crate::value::{copy_text, Value};
use vstd::prelude::*;

verus! {

/// Reports sidecars and documents that cannot be used.
#[derive(Debug, PartialEq, Eq)]
pub enum PbrError {
    /// Something is not as it has to be.
    Malformed { reason: &'static str },
    /// A named thing is missing.
    Missing { reason: &'static str, name: String },
    /// A template is not supported.
    UnsupportedTemplate { template: String },
}

/// What an error says.
pub ghost enum Fault {
    Malformed(Seq<char>),
    Missing(Seq<char>, Seq<char>),
    UnsupportedTemplate(Seq<char>),
}

impl View for PbrError {
    type V = Fault;

    open spec fn view(&self) -> Fault {
        match self {
            PbrError::Malformed { reason } => Fault::Malformed(reason@),
            PbrError::Missing { reason, name } => Fault::Missing(reason@, name@),
            PbrError::UnsupportedTemplate { template } => Fault::UnsupportedTemplate(template@),
        }
    }
}

/// The ways in which templates are baked.
#[derive(Debug, Clone, Copy, PartialEq, Eq, Structural)]
pub enum BakeKind {
    Multilayered,
    MetalBase,
    MaskedMetalBase,
    Decal,
    EmissiveDecal,
    Glass,
    Screen,
    Signage,
    Hologram,
    WindowParallax,
    Invisible,
}

/// Whether a template is a metal base.
pub open spec fn is_metal_base(t: Seq<char>) -> bool {
    t == "engine\\materials\\metal_base.remt"@ || t == "engine\\materials\\metal_base_proxy.mt"@
        || t == "base\\fx\\shaders\\device_diode.mt"@ || t
        == "base\\fx\\shaders\\metal_base_glitter.mt"@ || t
        == "base\\materials\\lights_interactive.mt"@ || t == "base\\materials\\metal_base_det.mt"@
        || t == "base\\materials\\metal_base_gradientmap_recolor.mt"@ || t
        == "base\\materials\\metal_base_ui.mt"@ || t
        == "base\\materials\\vehicle_destr_blendshape.mt"@
}

/// Whether a template is glass.
pub open spec fn is_glass(t: Seq<char>) -> bool {
    t == "base\\materials\\fillable_fluid.mt"@ || t == "base\\materials\\glass.mt"@ || t
        == "base\\materials\\glass_cracked_edge.mt"@ || t == "base\\materials\\glass_deferred.mt"@
        || t == "base\\materials\\glass_onesided.mt"@
}

/// Whether a template is a decal that does not shine.
pub open spec fn is_decal(t: Seq<char>) -> bool {
    t == "base\\materials\\mesh_decal.mt"@ || t
        == "base\\materials\\mesh_decal_gradientmap_recolor.mt"@ || t
        == "base\\materials\\mesh_decal_parallax.mt"@ || t
        == "base\\materials\\vehicle_mesh_decal.mt"@
}

/// The way in which a template is baked, if it is supported.
pub open spec fn kind_of(t: Seq<char>) -> Option<BakeKind> {
    if t == "engine\\materials\\multilayered.mt"@ || t
        == "base\\materials\\multilayered_terrain.mt"@ {
        Some(BakeKind::Multilayered)
    } else if is_metal_base(t) {
        Some(BakeKind::MetalBase)
    } else if t == "base\\materials\\metal_base_dithered.mt"@ || t
        == "base\\materials\\metal_base_det_dithered.mt"@ {
        Some(BakeKind::MaskedMetalBase)
    } else if is_decal(t) {
        Some(BakeKind::Decal)
    } else if t == "base\\materials\\mesh_decal_emissive.mt"@ {
        Some(BakeKind::EmissiveDecal)
    } else if is_glass(t) {
        Some(BakeKind::Glass)
    } else if t == "base\\fx\\shaders\\parallaxscreen.mt"@ || t
        == "base\\fx\\shaders\\parallaxscreen_transparent.mt"@ {
        Some(BakeKind::Screen)
    } else if t == "base\\fx\\shaders\\signages.mt"@ {
        Some(BakeKind::Signage)
    } else if t == "base\\fx\\shaders\\hologram.mt"@ {
        Some(BakeKind::Hologram)
    } else if t == "base\\materials\\window_parallax_interior.mt"@ {
        Some(BakeKind::WindowParallax)
    } else if t == "base\\fx\\_shaders\\invisible.mt"@ {
        Some(BakeKind::Invisible)
    } else {
        None
    }
}

/// Finds the way in which a template is baked.
pub fn bake_kind(t: &str) -> (result: Option<BakeKind>)
    ensures
        result == kind_of(t@),
{
    if same_text(t, "engine\\materials\\multilayered.mt") || same_text(
        t,
        "base\\materials\\multilayered_terrain.mt",
    ) {
        return Some(BakeKind::Multilayered);
    }
    if same_text(t, "engine\\materials\\metal_base.remt") || same_text(
        t,
        "engine\\materials\\metal_base_proxy.mt",
    ) || same_text(t, "base\\fx\\shaders\\device_diode.mt") || same_text(
        t,
        "base\\fx\\shaders\\metal_base_glitter.mt",
    ) || same_text(t, "base\\materials\\lights_interactive.mt") || same_text(
        t,
        "base\\materials\\metal_base_det.mt",
    ) || same_text(t, "base\\materials\\metal_base_gradientmap_recolor.mt") || same_text(
        t,
        "base\\materials\\metal_base_ui.mt",
    ) || same_text(t, "base\\materials\\vehicle_destr_blendshape.mt") {
        return Some(BakeKind::MetalBase);
    }
    if same_text(t, "base\\materials\\metal_base_dithered.mt") || same_text(
        t,
        "base\\materials\\metal_base_det_dithered.mt",
    ) {
        return Some(BakeKind::MaskedMetalBase);
    }
    if same_text(t, "base\\materials\\mesh_decal.mt") || same_text(
        t,
        "base\\materials\\mesh_decal_gradientmap_recolor.mt",
    ) || same_text(t, "base\\materials\\mesh_decal_parallax.mt") || same_text(
        t,
        "base\\materials\\vehicle_mesh_decal.mt",
    ) {
        return Some(BakeKind::Decal);
    }
    if same_text(t, "base\\materials\\mesh_decal_emissive.mt") {
        return Some(BakeKind::EmissiveDecal);
    }
    if same_text(t, "base\\materials\\fillable_fluid.mt") || same_text(
        t,
        "base\\materials\\glass.mt",
    ) || same_text(t, "base\\materials\\glass_cracked_edge.mt") || same_text(
        t,
        "base\\materials\\glass_deferred.mt",
    ) || same_text(t, "base\\materials\\glass_onesided.mt") {
        return Some(BakeKind::Glass);
    }
    if same_text(t, "base\\fx\\shaders\\parallaxscreen.mt") || same_text(
        t,
        "base\\fx\\shaders\\parallaxscreen_transparent.mt",
    ) {
        return Some(BakeKind::Screen);
    }
    if same_text(t, "base\\fx\\shaders\\signages.mt") {
        Some(BakeKind::Signage)
    } else if same_text(t, "base\\fx\\shaders\\hologram.mt") {
        Some(BakeKind::Hologram)
    } else if same_text(t, "base\\materials\\window_parallax_interior.mt") {
        Some(BakeKind::WindowParallax)
    } else if same_text(t, "base\\fx\\_shaders\\invisible.mt") {
        Some(BakeKind::Invisible)
    } else {
        None
    }
}

/// A text that has to be there.
pub open spec fn text_in(m: value::Model, key: Seq<char>) -> Result<Seq<char>, Fault> {
    match value::member(m, key) {
        Some(value::Model::Text(text)) => Ok(text),
        _ => Err(Fault::Missing("missing string"@, key)),
    }
}

/// What a record says of its baking: the name, the way, and whether it is
/// masked.
pub open spec fn record_kind(record: value::Model) -> Result<(Seq<char>, BakeKind, bool), Fault> {
    match text_in(record, "Name"@) {
        Err(f) => Err(f),
        Ok(name) => match text_in(record, "MaterialTemplate"@) {
            Err(f) => Err(f),
            Ok(template) => {
                let path = material_sidecar::normalized(template);
                match kind_of(path) {
                    None => Err(Fault::UnsupportedTemplate(path)),
                    Some(kind) => match value::member(record, "Data"@) {
                        Some(value::Model::Object(_)) => Ok(
                            (
                                name,
                                kind,
                                kind == BakeKind::MaskedMetalBase || value::member(
                                    record,
                                    "EnableMask"@,
                                ) == Some(value::Model::Bool(true)),
                            ),
                        ),
                        _ => Err(Fault::Malformed("material Data is not an object"@)),
                    },
                }
            },
        },
    }
}

fn required_string<'a>(value: &'a Value, key: &str) -> (result: Result<&'a str, PbrError>)
    ensures
        match text_in(value@, key@) {
            Ok(text) => result matches Ok(r) && r@ == text,
            Err(f) => result matches Err(e) && e@ == f,
        },
{
    match value.get(key) {
        Some(Value::Text(text)) => Ok(text.as_str()),
        _ => Err(PbrError::Missing { reason: "missing string", name: copy_text(key) }),
    }
}

/// Reads what a record says of its baking: the name, the way, and whether it is
/// masked.
pub fn read_record(record: &Value) -> (result: Result<(String, BakeKind, bool), PbrError>)
    ensures
        match record_kind(record@) {
            Ok((name, kind, masked)) => result matches Ok(r) && r.0@ == name && r.1 == kind && r.2
                == masked,
            Err(f) => result matches Err(e) && e@ == f,
        },
{
    let name: &str = match required_string(record, "Name") {
        Ok(name) => name,
        Err(error) => return Err(error),
    };
    let template: &str = match required_string(record, "MaterialTemplate") {
        Ok(template) => template,
        Err(error) => return Err(error),
    };
    let path: String = normalize_path(template);
    let kind: BakeKind = match bake_kind(path.as_str()) {
        Some(kind) => kind,
        None => return Err(PbrError::UnsupportedTemplate { template: path }),
    };
    match record.get("Data") {
        Some(Value::Object(_)) => {},
        _ => return Err(PbrError::Malformed { reason: "material Data is not an object" }),
    }
    let enabled: bool = match record.get("EnableMask") {
        Some(Value::Bool(truth)) => *truth,
        _ => false,
    };
    Ok((copy_text(name), kind, kind == BakeKind::MaskedMetalBase || enabled))
}

/// The path of a resource: a plain text, a name, or a reference.
pub open spec fn resource(m: value::Model) -> Option<Seq<char>>
    decreases m,
{
    match value::text_of(m) {
        Some(text) => Some(text),
        None => {
            let named = match value::member(m, "$value"@) {
                Some(inner) => value::text_of(inner),
                None => None,
            };
            match named {
                Some(text) => Some(text),
                None => match m {
                    value::Model::Object(own) => match entries::find(own, "DepotPath"@) {
                        Some(inner) => {
                            proof {
                                crate::material::lemma_found(own, "DepotPath"@);
                            }
                            resource(entries::find(own, "DepotPath"@)->0)
                        },
                        None => None,
                    },
                    _ => None,
                },
            }
        },
    }
}

/// Finds the path of a resource.
pub fn resource_string(value: &Value) -> (result: Option<&str>)
    ensures
        match resource(value@) {
            Some(path) => result matches Some(r) && r@ == path,
            None => result is None,
        },
    decreases value,
{
    if let Some(text) = value.as_text() {
        return Some(text);
    }
    if let Some(inner) = value.get("$value") {
        if let Some(text) = inner.as_text() {
            return Some(text);
        }
    }
    match value {
        Value::Object(own) => match crate::redpackage_pools::entry_position(own, "DepotPath") {
            Some(at) => {
                proof {
                    assert(decreases_to!(value => value->Object_0));
                    assert(decreases_to!(own => own@));
                    assert(decreases_to!(own@ => own@[at as int]));
                    assert(decreases_to!(own@[at as int] => own@[at as int].1));
                }
                resource_string(&own[at].1)
            },
            None => None,
        },
        _ => None,
    }
}

/// The names of the first `n` items.
pub open spec fn names_of(items: Seq<value::Model>, n: nat) -> Result<Seq<Seq<char>>, Fault>
    decreases n,
{
    if n == 0 {
        Ok(Seq::empty())
    } else {
        match names_of(items, (n - 1) as nat) {
            Err(f) => Err(f),
            Ok(before) => match value::text_of(items[n - 1]) {
                Some(name) => Ok(before.push(name)),
                None => Err(Fault::Malformed("appearance material name is not a string"@)),
            },
        }
    }
}

/// The last record with a name, among the first `n`.
pub open spec fn record_of(records: Seq<value::Model>, name: Seq<char>, n: nat) -> Option<nat>
    decreases n,
{
    if n == 0 {
        None
    } else if value::member(records[n - 1], "Name"@) == Some(value::Model::Text(name)) {
        Some((n - 1) as nat)
    } else {
        record_of(records, name, (n - 1) as nat)
    }
}

/// The records that the first `n` names select, each once.
pub open spec fn selected(names: Seq<Seq<char>>, records: Seq<value::Model>, n: nat) -> Result<
    Seq<nat>,
    Fault,
>
    decreases n,
{
    if n == 0 {
        Ok(Seq::empty())
    } else {
        match selected(names, records, (n - 1) as nat) {
            Err(f) => Err(f),
            Ok(before) => if names.subrange(0, n - 1).contains(names[n - 1]) {
                Ok(before)
            } else {
                match record_of(records, names[n - 1], records.len()) {
                    Some(at) => Ok(before.push(at)),
                    None => Err(Fault::Missing("no sidecar record for material"@, names[n - 1])),
                }
            },
        }
    }
}

/// What a sidecar gives for an appearance: the repository, the names of the
/// materials of the chunks, and the records that they select.
pub ghost struct SelectionModel {
    pub repository: Seq<char>,
    pub names: Seq<Seq<char>>,
    pub records: Seq<nat>,
}

/// What a sidecar gives for an appearance.
pub open spec fn selection(document: value::Model, appearance: Seq<char>) -> Result<
    SelectionModel,
    Fault,
> {
    match value::member(document, "MaterialRepo"@) {
        Some(value::Model::Text(repository)) => {
            let look = match value::member(document, "Appearances"@) {
                Some(looks) => value::member(looks, appearance),
                None => None,
            };
            match look {
                Some(value::Model::Array(items)) => match names_of(items, items.len()) {
                    Err(f) => Err(f),
                    Ok(names) => match value::member(document, "Materials"@) {
                        Some(value::Model::Array(records)) => match selected(
                            names,
                            records,
                            names.len(),
                        ) {
                            Err(f) => Err(f),
                            Ok(found) => Ok(
                                SelectionModel { repository, names, records: found },
                            ),
                        },
                        _ => Err(Fault::Malformed("sidecar has no Materials array"@)),
                    },
                },
                _ => Err(Fault::Missing("appearance was not found"@, appearance)),
            }
        },
        _ => Err(Fault::Malformed("sidecar has no MaterialRepo"@)),
    }
}

/// What a sidecar gives for an appearance.
#[derive(Debug)]
pub struct Selection {
    pub repository: String,
    pub names: Vec<String>,
    pub records: Vec<usize>,
}

/// Texts as they are.
pub open spec fn texts(list: Seq<String>) -> Seq<Seq<char>> {
    list.map_values(|text: String| text@)
}

impl View for Selection {
    type V = SelectionModel;

    open spec fn view(&self) -> SelectionModel {
        SelectionModel {
            repository: self.repository@,
            names: texts(self.names@),
            records: self.records@.map_values(|at: usize| at as nat),
        }
    }
}

proof fn lemma_names_fail(items: Seq<value::Model>, k: nat, n: nat)
    requires
        k <= n,
        names_of(items, k) is Err,
    ensures
        names_of(items, n) == names_of(items, k),
    decreases n,
{
    if k < n {
        lemma_names_fail(items, k, (n - 1) as nat);
    }
}

#[verifier::loop_isolation(false)]
fn list_names(items: &Vec<Value>) -> (result: Result<Vec<String>, PbrError>)
    ensures
        match names_of(value::models(items@), items@.len()) {
            Ok(names) => result matches Ok(r) && texts(r@) == names,
            Err(f) => result matches Err(e) && e@ == f,
        },
{
    let ghost all = value::models(items@);
    proof {
        value::lemma_models(items@);
    }
    let mut out: Vec<String> = Vec::new();
    assert(texts(out@) =~= Seq::empty());
    let mut i: usize = 0;
    while i < items.len()
        invariant
            i <= items@.len(),
            names_of(all, i as nat) == Ok::<Seq<Seq<char>>, Fault>(texts(out@)),
        decreases items@.len() - i,
    {
        match items[i].as_text() {
            Some(name) => {
                let ghost before = out@;
                out.push(copy_text(name));
                assert(texts(out@) =~= texts(before).push(name@));
            },
            None => {
                proof {
                    lemma_names_fail(all, (i + 1) as nat, all.len());
                }
                return Err(
                    PbrError::Malformed { reason: "appearance material name is not a string" },
                );
            },
        }
        i = i + 1;
    }
    Ok(out)
}

fn find_record(records: &Vec<Value>, name: &str) -> (result: Option<usize>)
    ensures
        match record_of(value::models(records@), name@, records@.len()) {
            Some(at) => result matches Some(r) && r == at,
            None => result is None,
        },
{
    let ghost all = value::models(records@);
    proof {
        value::lemma_models(records@);
    }
    let mut n: usize = records.len();
    while n > 0
        invariant
            n <= records@.len(),
            all == value::models(records@),
            forall|k: int| 0 <= k < all.len() ==> #[trigger] all[k] == value::model(records@[k]),
            all.len() == records@.len(),
            record_of(all, name@, records@.len()) == record_of(all, name@, n as nat),
        decreases n,
    {
        assert(all[n - 1] == value::model(records@[n - 1]));
        if let Some(Value::Text(own)) = records[n - 1].get("Name") {
            if same_text(own.as_str(), name) {
                return Some(n - 1);
            }
        }
        n = n - 1;
    }
    None
}

proof fn lemma_selected_fail(names: Seq<Seq<char>>, records: Seq<value::Model>, k: nat, n: nat)
    requires
        k <= n,
        selected(names, records, k) is Err,
    ensures
        selected(names, records, n) == selected(names, records, k),
    decreases n,
{
    if k < n {
        lemma_selected_fail(names, records, k, (n - 1) as nat);
    }
}

fn named_before(names: &Vec<String>, at: usize) -> (result: bool)
    requires
        at < names@.len(),
    ensures
        result == texts(names@).subrange(0, at as int).contains(texts(names@)[at as int]),
{
    let ghost front = texts(names@).subrange(0, at as int);
    let ghost own = texts(names@)[at as int];
    let mut i: usize = 0;
    while i < at
        invariant
            i <= at < names@.len(),
            front == texts(names@).subrange(0, at as int),
            own == texts(names@)[at as int],
            forall|k: int| 0 <= k < i ==> front[k] != own,
        decreases at - i,
    {
        assert(front[i as int] == names@[i as int]@);
        if same_text(names[i].as_str(), names[at].as_str()) {
            assert(front[i as int] == own);
            return true;
        }
        i = i + 1;
    }
    false
}

#[verifier::loop_isolation(false)]
fn list_selected(names: &Vec<String>, records: &Vec<Value>) -> (result: Result<
    Vec<usize>,
    PbrError,
>)
    ensures
        match selected(texts(names@), value::models(records@), names@.len()) {
            Ok(found) => result matches Ok(r) && r@.map_values(|at: usize| at as nat) == found,
            Err(f) => result matches Err(e) && e@ == f,
        },
{
    let ghost all = texts(names@);
    let ghost table = value::models(records@);
    proof {
        value::lemma_models(records@);
    }
    let mut out: Vec<usize> = Vec::new();
    assert(out@.map_values(|at: usize| at as nat) =~= Seq::empty());
    let mut i: usize = 0;
    while i < names.len()
        invariant
            i <= names@.len(),
            selected(all, table, i as nat) == Ok::<Seq<nat>, Fault>(
                out@.map_values(|at: usize| at as nat),
            ),
        decreases names@.len() - i,
    {
        assert(all[i as int] == names@[i as int]@);
        if !named_before(names, i) {
            match find_record(records, names[i].as_str()) {
                Some(at) => {
                    let ghost before = out@;
                    out.push(at);
                    assert(out@.map_values(|at: usize| at as nat) =~= before.map_values(
                        |at: usize| at as nat,
                    ).push(at as nat));
                },
                None => {
                    proof {
                        lemma_selected_fail(all, table, (i + 1) as nat, all.len());
                    }
                    return Err(
                        PbrError::Missing {
                            reason: "no sidecar record for material",
                            name: copy_text(names[i].as_str()),
                        },
                    );
                },
            }
        }
        i = i + 1;
    }
    Ok(out)
}

/// Reads what a sidecar gives for an appearance.
pub fn select_materials(document: &Value, appearance: &str) -> (result: Result<
    Selection,
    PbrError,
>)
    ensures
        match selection(document@, appearance@) {
            Ok(found) => result matches Ok(r) && r@ == found,
            Err(f) => result matches Err(e) && e@ == f,
        },
{
    let repository: &str = match document.get("MaterialRepo") {
        Some(Value::Text(repository)) => repository.as_str(),
        _ => return Err(PbrError::Malformed { reason: "sidecar has no MaterialRepo" }),
    };
    let look: Option<&Value> = match document.get("Appearances") {
        Some(looks) => looks.get(appearance),
        None => None,
    };
    let items: &Vec<Value> = match look {
        Some(Value::Array(items)) => items,
        _ => return Err(
            PbrError::Missing {
                reason: "appearance was not found",
                name: copy_text(appearance),
            },
        ),
    };
    proof {
        value::lemma_models(items@);
    }
    let names: Vec<String> = match list_names(items) {
        Ok(names) => names,
        Err(error) => return Err(error),
    };
    let records: &Vec<Value> = match document.get("Materials") {
        Some(Value::Array(records)) => records,
        _ => return Err(PbrError::Malformed { reason: "sidecar has no Materials array" }),
    };
    match list_selected(&names, records) {
        Ok(found) => Ok(Selection { repository: copy_text(repository), names, records: found }),
        Err(error) => Err(error),
    }
}

/// The material of a chunk, where the names of an appearance are spread evenly
/// over the chunks.
pub open spec fn spread_material(names: Seq<Seq<char>>, index: nat, chunks: nat) -> Seq<char> {
    if names.len() == 0 {
        ""@
    } else {
        let product = if index * names.len() > usize::MAX {
            usize::MAX as nat
        } else {
            index * names.len()
        };
        let at = product / (if chunks == 0 {
            1
        } else {
            chunks
        });
        if at < names.len() {
            names[at as int]
        } else {
            names.last()
        }
    }
}

/// Finds the material of a chunk, where the names of an appearance are spread
/// evenly over the chunks.
pub fn material_for_chunk(names: &Vec<String>, index: usize, chunks: usize) -> (result: String)
    ensures
        result@ == spread_material(texts(names@), index as nat, chunks as nat),
{
    if names.len() == 0 {
        return copy_text("");
    }
    assert(forall|k: int| 0 <= k < names@.len() ==> #[trigger] texts(names@)[k] == names@[k]@);
    let product: usize = match index.checked_mul(names.len()) {
        Some(product) => product,
        None => usize::MAX,
    };
    let at: usize = product / (if chunks == 0 {
        1
    } else {
        chunks
    });
    if at < names.len() {
        copy_text(names[at].as_str())
    } else {
        copy_text(names[names.len() - 1].as_str())
    }
}

/// The key under which a baked material is kept: a digest of its record, as
/// JSON, and of the size of its textures.
pub open spec fn cache_name(record: Seq<u8>, size: u32) -> Seq<char> {
    red_types::hex_digits(
        archive_writer::sha1_digest(
            version_tag() + record + binary::le_bytes(size as nat, 4),
        ),
    )
}

/// The bytes that stand for the way in which materials are baked.
pub open spec fn version_tag() -> Seq<u8> {
    seq![
        0x67u8, 0x68u8, 0x6fu8, 0x73u8, 0x74u8, 0x6cu8, 0x69u8, 0x6eu8, 0x65u8, 0x2du8, 0x70u8,
        0x62u8, 0x72u8, 0x2du8, 0x76u8, 0x34u8,
    ]
}

/// Makes the key under which a baked material is kept.
pub fn cache_key(record: &[u8], size: u32) -> (result: String)
    ensures
        result@ == cache_name(record@, size),
{
    let mut bytes: Vec<u8> = vec![
        0x67u8, 0x68u8, 0x6fu8, 0x73u8, 0x74u8, 0x6cu8, 0x69u8, 0x6eu8, 0x65u8, 0x2du8, 0x70u8,
        0x62u8, 0x72u8, 0x2du8, 0x76u8, 0x34u8,
    ];
    assert(bytes@ =~= version_tag());
    append(&mut bytes, record);
    write_u32(&mut bytes, size);
    assert(bytes@ =~= version_tag() + record@ + binary::le_bytes(size as nat, 4));
    hex(digest_sha1(bytes.as_slice()).as_slice())
}

/// How many materials were attached to a document, and how many textures were
/// made for them or found.
#[derive(Debug, Clone, Copy, PartialEq, Eq, Structural)]
pub struct BakeSummary {
    pub materials: usize,
    pub generated_textures: usize,
    pub reused_textures: usize,
}

impl Default for BakeSummary {
    fn default() -> (result: Self)
        ensures
            result.materials == 0,
            result.generated_textures == 0,
            result.reused_textures == 0,
    {
        BakeSummary { materials: 0, generated_textures: 0, reused_textures: 0 }
    }
}

} // verus!
