//! Materials with what they inherit, the sidecar document, and the resources
//! that materials depend on.

use crate::entries;
use crate::material;
use crate::material::{
    collect_depot_paths, extension, flag, is_dependency, malformed, member, normalize_value, red_depot_path,
    texts, Fault, MaterialError,
};
use crate::material_defaults;
use crate::material_defaults::template_defaults;
use crate::material_records;
use crate::mesh;
use crate::mesh_gltf;
use crate::mesh_gltf::new_text_values;
use crate::schema;
use crate::schema::among;
use crate::text;
use crate::text::{chars_of, replace_char, same_text, text_of, to_lowercase};
use crate::value;
use crate::value::{copy_text, set_entry, Value};
use vstd::prelude::*;

verus! {

/// How many resources deep a material may inherit.
pub const DEEPEST_INHERITANCE: usize = 16;

/// The root of a material's document.
pub open spec fn root_of(document: value::Model) -> Result<value::Model, Fault> {
    match material::field(document, "Data"@) {
        Err(f) => Err(f),
        Ok(data) => material::field(data, "RootChunk"@),
    }
}

/// The path of the material that a material is based on, empty if there is
/// none.
pub open spec fn base_of(root: value::Model) -> Result<Seq<char>, Fault> {
    match value::member(root, "baseMaterial"@) {
        None => Ok(""@),
        Some(base) => material::depot_path(base),
    }
}

/// The material instance that a material inherits from, if it inherits from
/// one. `depth` counts the resources passed on the way.
pub open spec fn parent_of(document: value::Model, depth: nat) -> Result<Option<Seq<char>>, Fault> {
    if depth > DEEPEST_INHERITANCE {
        material::bad("material inheritance is deeper than 16 resources"@)
    } else {
        match root_of(document) {
            Err(f) => Err(f),
            Ok(root) => match base_of(root) {
                Err(f) => Err(f),
                Ok(base) => if material::extension_of(base) == Some("mi"@) {
                    Ok(Some(base))
                } else {
                    Ok(None)
                },
            },
        }
    }
}

fn find_root<'a>(document: &'a Value) -> (result: Result<&'a Value, MaterialError>)
    ensures
        match root_of(document@) {
            Ok(root) => result matches Ok(r) && r@ == root,
            Err(f) => result matches Err(e) && e@ == f,
        },
{
    match member(document, "Data") {
        Ok(data) => member(data, "RootChunk"),
        Err(error) => Err(error),
    }
}

fn find_base(root: &Value) -> (result: Result<String, MaterialError>)
    ensures
        match base_of(root@) {
            Ok(base) => result matches Ok(r) && r@ == base,
            Err(f) => result matches Err(e) && e@ == f,
        },
{
    match root.get("baseMaterial") {
        None => Ok(copy_text("")),
        Some(base) => red_depot_path(base),
    }
}

/// Finds the material instance that a material inherits from, if it inherits
/// from one.
pub fn parent_path(document: &Value, depth: usize) -> (result: Result<
    Option<String>,
    MaterialError,
>)
    ensures
        match parent_of(document@, depth as nat) {
            Ok(None) => result matches Ok(None),
            Ok(Some(path)) => result matches Ok(Some(r)) && r@ == path,
            Err(f) => result matches Err(e) && e@ == f,
        },
{
    if depth > DEEPEST_INHERITANCE {
        return Err(malformed("material inheritance is deeper than 16 resources"));
    }
    let root: &Value = match find_root(document) {
        Ok(root) => root,
        Err(error) => return Err(error),
    };
    let base: String = match find_base(root) {
        Ok(base) => base,
        Err(error) => return Err(error),
    };
    match extension(base.as_str()) {
        Some(found) => if same_text(found.as_str(), "mi") {
            Ok(Some(base))
        } else {
            Ok(None)
        },
        None => Ok(None),
    }
}

/// A material with what it inherits.
pub ghost struct RecordModel {
    pub name: Seq<char>,
    pub base_material: Seq<char>,
    pub material_template: Seq<char>,
    pub enable_mask: bool,
    pub data: Seq<(Seq<char>, value::Model)>,
}

/// A material with what it inherits.
#[derive(Debug, PartialEq, Eq)]
pub struct MaterialRecord {
    pub name: String,
    pub base_material: String,
    pub material_template: String,
    pub enable_mask: bool,
    pub data: Vec<(String, Value)>,
}

impl View for MaterialRecord {
    type V = RecordModel;

    open spec fn view(&self) -> RecordModel {
        RecordModel {
            name: self.name@,
            base_material: self.base_material@,
            material_template: self.material_template@,
            enable_mask: self.enable_mask,
            data: value::entry_models(self.data@),
        }
    }
}

/// Entries with those of an object put over them, as a sidecar shows them.
pub open spec fn with_shown(
    data: Seq<(Seq<char>, value::Model)>,
    object: Seq<(Seq<char>, value::Model)>,
    n: nat,
) -> Seq<(Seq<char>, value::Model)>
    decreases n,
{
    if n == 0 {
        data
    } else {
        let before = with_shown(data, object, (n - 1) as nat);
        let (key, item) = object[n - 1];
        if key.len() > 0 && key[0] == '$' {
            before
        } else {
            entries::put(before, key, material::shown(item))
        }
    }
}

/// Entries with those of the first `n` values put over them.
pub open spec fn with_values(
    data: Seq<(Seq<char>, value::Model)>,
    values: Seq<value::Model>,
    n: nat,
) -> Result<Seq<(Seq<char>, value::Model)>, Fault>
    decreases n,
{
    if n == 0 {
        Ok(data)
    } else {
        match with_values(data, values, (n - 1) as nat) {
            Err(f) => Err(f),
            Ok(before) => match values[n - 1] {
                value::Model::Object(object) => Ok(with_shown(before, object, object.len())),
                _ => material::bad("material value is not an object"@),
            },
        }
    }
}

/// A material with what it inherits from its parent, if it has one.
pub open spec fn resolved(
    name: Seq<char>,
    document: value::Model,
    parent: Option<RecordModel>,
) -> Result<RecordModel, Fault> {
    match root_of(document) {
        Err(f) => Err(f),
        Ok(root) => match base_of(root) {
            Err(f) => Err(f),
            Ok(base) => {
                let values = material_records::items_or_none(root, "values"@);
                let own = material::flag_in(root, "enableMask"@);
                let (data, template, masked) = match parent {
                    None => (Seq::empty(), base, own),
                    Some(record) => (
                        record.data,
                        record.material_template,
                        own || record.enable_mask,
                    ),
                };
                match with_values(data, values, values.len()) {
                    Err(f) => Err(f),
                    Ok(all) => Ok(
                        RecordModel {
                            name,
                            base_material: base,
                            material_template: template,
                            enable_mask: masked,
                            data: all,
                        },
                    ),
                }
            },
        },
    }
}

proof fn lemma_values_fail(
    data: Seq<(Seq<char>, value::Model)>,
    values: Seq<value::Model>,
    k: nat,
    n: nat,
)
    requires
        k <= n,
        with_values(data, values, k) is Err,
    ensures
        with_values(data, values, n) == with_values(data, values, k),
    decreases n,
{
    if k < n {
        lemma_values_fail(data, values, k, (n - 1) as nat);
    }
}

fn add_shown(data: &mut Vec<(String, Value)>, object: &Vec<(String, Value)>)
    ensures
        value::entry_models(final(data)@) == with_shown(
            value::entry_models(old(data)@),
            value::entry_models(object@),
            object@.len(),
        ),
{
    let ghost before = value::entry_models(data@);
    let ghost all = value::entry_models(object@);
    proof {
        value::lemma_entry_models(object@);
    }
    let mut i: usize = 0;
    while i < object.len()
        invariant
            i <= object@.len(),
            all == value::entry_models(object@),
            forall|k: int|
                0 <= k < object@.len() ==> #[trigger] all[k] == (
                    object@[k].0@,
                    value::model(object@[k].1),
                ),
            value::entry_models(data@) == with_shown(before, all, i as nat),
        decreases object@.len() - i,
    {
        assert(all[i as int] == (object@[i as int].0@, value::model(object@[i as int].1)));
        let key: &str = object[i].0.as_str();
        let chars: Vec<char> = chars_of(key);
        if !(chars.len() > 0 && chars[0] == '$') {
            set_entry(data, key, normalize_value(&object[i].1));
        }
        i = i + 1;
    }
}

#[verifier::loop_isolation(false)]
fn add_values(data: Vec<(String, Value)>, values: &Vec<Value>) -> (result: Result<
    Vec<(String, Value)>,
    MaterialError,
>)
    ensures
        match with_values(value::entry_models(data@), value::models(values@), values@.len()) {
            Ok(all) => result matches Ok(r) && value::entry_models(r@) == all,
            Err(f) => result matches Err(e) && e@ == f,
        },
{
    let ghost before = value::entry_models(data@);
    let ghost all = value::models(values@);
    proof {
        value::lemma_models(values@);
    }
    let mut out: Vec<(String, Value)> = data;
    let mut i: usize = 0;
    while i < values.len()
        invariant
            i <= values@.len(),
            with_values(before, all, i as nat) == Ok::<Seq<(Seq<char>, value::Model)>, Fault>(
                value::entry_models(out@),
            ),
        decreases values@.len() - i,
    {
        assert(all[i as int] == value::model(values@[i as int]));
        match &values[i] {
            Value::Object(object) => {
                proof {
                    value::lemma_entry_models(object@);
                }
                add_shown(&mut out, object);
            },
            _ => {
                proof {
                    lemma_values_fail(before, all, (i + 1) as nat, all.len());
                }
                return Err(malformed("material value is not an object"));
            },
        }
        i = i + 1;
    }
    Ok(out)
}

/// A record, if there is one.
pub open spec fn optional_record(record: Option<MaterialRecord>) -> Option<RecordModel> {
    match record {
        Some(record) => Some(record@),
        None => None,
    }
}

/// Puts a material together with what it inherits from its parent.
pub fn resolve_material(name: String, document: &Value, parent: Option<MaterialRecord>) -> (result:
    Result<MaterialRecord, MaterialError>)
    ensures
        match resolved(name@, document@, optional_record(parent)) {
            Ok(record) => result matches Ok(r) && r@ == record,
            Err(f) => result matches Err(e) && e@ == f,
        },
{
    let root: &Value = match find_root(document) {
        Ok(root) => root,
        Err(error) => return Err(error),
    };
    let base: String = match find_base(root) {
        Ok(base) => base,
        Err(error) => return Err(error),
    };
    let none: Vec<Value> = Vec::new();
    assert(value::models(none@) =~= Seq::empty());
    let values: &Vec<Value> = match root.get("values") {
        Some(Value::Array(values)) => values,
        _ => &none,
    };
    proof {
        value::lemma_models(values@);
    }
    let own: bool = flag(root, "enableMask");
    let (data, template, masked): (Vec<(String, Value)>, String, bool) = match parent {
        None => {
            let nothing: Vec<(String, Value)> = Vec::new();
            assert(value::entry_models(nothing@) =~= Seq::empty());
            (nothing, copy_text(base.as_str()), own)
        },
        Some(record) => (record.data, record.material_template, own || record.enable_mask),
    };
    match add_values(data, values) {
        Ok(all) => Ok(
            MaterialRecord {
                name,
                base_material: base,
                material_template: template,
                enable_mask: masked,
                data: all,
            },
        ),
        Err(error) => Err(error),
    }
}

/// A value of a material hides the one under the same key that it inherits.
pub proof fn law_own_value_wins(
    data: Seq<(Seq<char>, value::Model)>,
    object: Seq<(Seq<char>, value::Model)>,
    n: nat,
    i: nat,
)
    requires
        entries::rising(data),
        n <= object.len(),
        i < n,
        !(object[i as int].0.len() > 0 && object[i as int].0[0] == '$'),
        forall|k: int| i < k < n ==> #[trigger] object[k].0 != object[i as int].0,
    ensures
        entries::rising(with_shown(data, object, n)),
        entries::find(with_shown(data, object, n), object[i as int].0) == Some(
            material::shown(object[i as int].1),
        ),
    decreases n,
{
    let before = with_shown(data, object, (n - 1) as nat);
    let (key, item) = object[n - 1];
    lemma_shown_rising(data, object, (n - 1) as nat);
    if !(key.len() > 0 && key[0] == '$') {
        entries::law_put_rising(before, key, material::shown(item));
    }
    if i == n - 1 {
        entries::law_find_put(before, key, material::shown(item));
    } else {
        law_own_value_wins(data, object, (n - 1) as nat, i);
        assert(key != object[i as int].0);
        if !(key.len() > 0 && key[0] == '$') {
            entries::law_find_other(before, key, material::shown(item), object[i as int].0);
        }
    }
}

proof fn lemma_shown_rising(
    data: Seq<(Seq<char>, value::Model)>,
    object: Seq<(Seq<char>, value::Model)>,
    n: nat,
)
    requires
        entries::rising(data),
    ensures
        entries::rising(with_shown(data, object, n)),
    decreases n,
{
    if n > 0 {
        lemma_shown_rising(data, object, (n - 1) as nat);
        let before = with_shown(data, object, (n - 1) as nat);
        let (key, item) = object[n - 1];
        if !(key.len() > 0 && key[0] == '$') {
            entries::law_put_rising(before, key, material::shown(item));
        }
    }
}

/// A material in the sidecar.
pub open spec fn material_item(record: RecordModel) -> value::Model {
    value::Model::Object(
        entries::put(
            entries::put(
                entries::put(
                    entries::put(
                        entries::put(Seq::empty(), "Name"@, value::Model::Text(record.name)),
                        "BaseMaterial"@,
                        value::Model::Text(record.base_material),
                    ),
                    "MaterialTemplate"@,
                    value::Model::Text(record.material_template),
                ),
                "EnableMask"@,
                value::Model::Bool(record.enable_mask),
            ),
            "Data"@,
            value::Model::Object(record.data),
        ),
    )
}

/// The template of a material in the sidecar.
pub open spec fn template_item(record: RecordModel) -> value::Model {
    value::Model::Object(
        entries::put(
            entries::put(
                entries::put(
                    Seq::empty(),
                    "Name"@,
                    value::Model::Text(record.material_template),
                ),
                "EnableMask"@,
                value::Model::Bool(record.enable_mask),
            ),
            "Data"@,
            material_defaults::template_values(record.material_template),
        ),
    )
}

/// Records as they are.
pub open spec fn record_models(list: Seq<MaterialRecord>) -> Seq<RecordModel> {
    list.map_values(|record: MaterialRecord| record@)
}

/// The sidecar of a mesh.
pub open spec fn sidecar(
    repository: Seq<char>,
    records: Seq<RecordModel>,
    textures: Seq<Seq<char>>,
    looks: Seq<(Seq<char>, value::Model)>,
) -> value::Model {
    let header = entries::put(
        Seq::empty(),
        "MaterialJsonVersion"@,
        value::Model::Text("1.0.0"@),
    );
    value::Model::Object(
        entries::put(
            entries::put(
                entries::put(
                    entries::put(
                        entries::put(
                            entries::put(Seq::empty(), "Header"@, value::Model::Object(header)),
                            "MaterialRepo"@,
                            value::Model::Text(repository),
                        ),
                        "Materials"@,
                        value::Model::Array(records.map_values(|r: RecordModel| material_item(r))),
                    ),
                    "TexturesList"@,
                    mesh_gltf::text_values(textures),
                ),
                "MaterialTemplates"@,
                value::Model::Array(records.map_values(|r: RecordModel| template_item(r))),
            ),
            "Appearances"@,
            value::Model::Object(looks),
        ),
    )
}

fn new_material_item(record: &MaterialRecord) -> (result: Value)
    ensures
        result@ == material_item(record@),
{
    let mut fields: Vec<(String, Value)> = Vec::new();
    set_entry(&mut fields, "Name", Value::text(record.name.as_str()));
    set_entry(&mut fields, "BaseMaterial", Value::text(record.base_material.as_str()));
    set_entry(&mut fields, "MaterialTemplate", Value::text(record.material_template.as_str()));
    set_entry(&mut fields, "EnableMask", Value::Bool(record.enable_mask));
    set_entry(&mut fields, "Data", copy_object(&record.data));
    Value::Object(fields)
}

fn copy_object(entries: &Vec<(String, Value)>) -> (result: Value)
    ensures
        result@ == value::Model::Object(value::entry_models(entries@)),
{
    let mut out: Vec<(String, Value)> = Vec::new();
    let ghost all = value::entry_models(entries@);
    proof {
        value::lemma_entry_models(entries@);
        assert(value::entry_models(out@) =~= all.subrange(0, 0));
    }
    let mut i: usize = 0;
    while i < entries.len()
        invariant
            i <= entries@.len(),
            all == value::entry_models(entries@),
            all.len() == entries@.len(),
            forall|k: int|
                0 <= k < all.len() ==> #[trigger] all[k] == (
                    entries@[k].0@,
                    value::model(entries@[k].1),
                ),
            value::entry_models(out@) == all.subrange(0, i as int),
        decreases entries@.len() - i,
    {
        let entry: (String, Value) = (copy_text(entries[i].0.as_str()), entries[i].1.copy());
        proof {
            value::lemma_entry_models_push(out@, entry);
            assert(all.subrange(0, i + 1) =~= all.subrange(0, i as int).push(all[i as int]));
        }
        out.push(entry);
        i = i + 1;
    }
    assert(all.subrange(0, i as int) =~= all);
    Value::Object(out)
}

fn new_template_item(record: &MaterialRecord) -> (result: Value)
    ensures
        result@ == template_item(record@),
{
    let mut fields: Vec<(String, Value)> = Vec::new();
    set_entry(&mut fields, "Name", Value::text(record.material_template.as_str()));
    set_entry(&mut fields, "EnableMask", Value::Bool(record.enable_mask));
    set_entry(&mut fields, "Data", template_defaults(record.material_template.as_str()));
    Value::Object(fields)
}

/// Writes the sidecar of a mesh.
pub fn sidecar_document(
    repository: &str,
    records: &Vec<MaterialRecord>,
    textures: &Vec<String>,
    looks: Vec<(String, Value)>,
) -> (result: Value)
    ensures
        result@ == sidecar(
            repository@,
            record_models(records@),
            texts(textures@),
            value::entry_models(looks@),
        ),
{
    let ghost all = record_models(records@);
    let ghost shown_materials = all.map_values(|r: RecordModel| material_item(r));
    let ghost shown_templates = all.map_values(|r: RecordModel| template_item(r));
    let mut materials: Vec<Value> = Vec::new();
    let mut templates: Vec<Value> = Vec::new();
    assert(value::models(materials@) =~= shown_materials.subrange(0, 0));
    assert(value::models(templates@) =~= shown_templates.subrange(0, 0));
    let mut i: usize = 0;
    while i < records.len()
        invariant
            i <= records@.len(),
            all == record_models(records@),
            shown_materials == all.map_values(|r: RecordModel| material_item(r)),
            shown_templates == all.map_values(|r: RecordModel| template_item(r)),
            value::models(materials@) == shown_materials.subrange(0, i as int),
            value::models(templates@) == shown_templates.subrange(0, i as int),
        decreases records@.len() - i,
    {
        let material: Value = new_material_item(&records[i]);
        let template: Value = new_template_item(&records[i]);
        proof {
            value::lemma_models_push(materials@, material);
            value::lemma_models_push(templates@, template);
            assert(all[i as int] == records@[i as int]@);
            assert(shown_materials.subrange(0, i + 1) =~= shown_materials.subrange(
                0,
                i as int,
            ).push(shown_materials[i as int]));
            assert(shown_templates.subrange(0, i + 1) =~= shown_templates.subrange(
                0,
                i as int,
            ).push(shown_templates[i as int]));
        }
        materials.push(material);
        templates.push(template);
        i = i + 1;
    }
    assert(shown_materials.subrange(0, i as int) =~= shown_materials);
    assert(shown_templates.subrange(0, i as int) =~= shown_templates);
    assert(mesh::texts(textures@) =~= texts(textures@));
    let mut header: Vec<(String, Value)> = Vec::new();
    set_entry(&mut header, "MaterialJsonVersion", Value::text("1.0.0"));
    let mut fields: Vec<(String, Value)> = Vec::new();
    set_entry(&mut fields, "Header", Value::Object(header));
    set_entry(&mut fields, "MaterialRepo", Value::text(repository));
    set_entry(&mut fields, "Materials", Value::Array(materials));
    set_entry(&mut fields, "TexturesList", new_text_values(textures));
    set_entry(&mut fields, "MaterialTemplates", Value::Array(templates));
    set_entry(&mut fields, "Appearances", Value::Object(looks));
    Value::Object(fields)
}

/// A depot path in the form in which it is looked up.
pub open spec fn normalized(path: Seq<char>) -> Seq<char> {
    text::lowercase(text::replaced(path, '/', '\\'))
}

/// Brings a depot path into the form in which it is looked up.
pub fn normalize_path(path: &str) -> (result: String)
    ensures
        result@ == normalized(path@),
{
    let chars: Vec<char> = chars_of(path);
    let back: Vec<char> = replace_char(chars.as_slice(), '/', '\\');
    to_lowercase(text_of(back.as_slice()).as_str())
}

/// The resources that are still to be exported, and those that were.
pub ghost struct QueueModel {
    pub pending: Seq<Seq<char>>,
    pub visited: Seq<Seq<char>>,
    pub textures: Seq<Seq<char>>,
    pub masks: nat,
}

/// The next resource to export: the first that was not visited and that
/// materials depend on.
pub open spec fn upcoming(q: QueueModel) -> (Option<Seq<char>>, QueueModel)
    decreases q.pending.len(),
{
    if q.pending.len() == 0 {
        (None, q)
    } else {
        let path = normalized(q.pending[0]);
        let rest = QueueModel { pending: q.pending.drop_first(), ..q };
        if q.visited.contains(path) {
            upcoming(rest)
        } else {
            let met = QueueModel { visited: q.visited.push(path), ..rest };
            if material::names_dependency(path) {
                (Some(path), met)
            } else {
                upcoming(met)
            }
        }
    }
}

/// The resources that are still to be exported, and those that were.
#[derive(Debug)]
pub struct DependencyQueue {
    pub queue: Vec<String>,
    pub next: usize,
    pub visited: Vec<String>,
    pub textures: Vec<String>,
    pub masks: usize,
}

impl View for DependencyQueue {
    type V = QueueModel;

    open spec fn view(&self) -> QueueModel {
        QueueModel {
            pending: texts(self.queue@).subrange(self.next as int, self.queue@.len() as int),
            visited: texts(self.visited@),
            textures: texts(self.textures@),
            masks: self.masks as nat,
        }
    }
}

impl DependencyQueue {
    /// The queue has not been taken beyond its end.
    pub open spec fn well_formed(&self) -> bool {
        self.next <= self.queue@.len()
    }

    /// Starts with the paths that are named by materials.
    pub fn new(records: &Vec<MaterialRecord>) -> (result: DependencyQueue)
        ensures
            result.well_formed(),
            result@ == (QueueModel {
                pending: record_paths(record_models(records@), records@.len()),
                visited: Seq::empty(),
                textures: Seq::empty(),
                masks: 0,
            }),
    {
        let ghost all = record_models(records@);
        let mut queue: Vec<String> = Vec::new();
        assert(texts(queue@) =~= Seq::empty());
        let mut i: usize = 0;
        while i < records.len()
            invariant
                i <= records@.len(),
                all == record_models(records@),
                texts(queue@) == record_paths(all, i as nat),
            decreases records@.len() - i,
        {
            assert(all[i as int] == records@[i as int]@);
            let object: Value = copy_object(&records[i].data);
            collect_depot_paths(&object, &mut queue);
            i = i + 1;
        }
        let made: DependencyQueue = DependencyQueue {
            queue,
            next: 0,
            visited: Vec::new(),
            textures: Vec::new(),
            masks: 0,
        };
        assert(made@.pending =~= record_paths(all, records@.len()));
        assert(made@.visited =~= Seq::empty());
        assert(made@.textures =~= Seq::empty());
        made
    }

    /// Takes the next resource to export.
    pub fn take_next(&mut self) -> (result: Option<String>)
        requires
            old(self).well_formed(),
        ensures
            final(self).well_formed(),
            final(self)@ == upcoming(old(self)@).1,
            match upcoming(old(self)@).0 {
                Some(path) => result matches Some(r) && r@ == path,
                None => result is None,
            },
    {
        let ghost wanted = upcoming(self@);
        while self.next < self.queue.len()
            invariant
                self.well_formed(),
                wanted == upcoming(old(self)@),
                wanted == upcoming(self@),
            decreases self.queue@.len() - self.next,
        {
            let ghost before = self@;
            proof {
                assert(before.pending[0] == self.queue@[self.next as int]@);
            }
            let path: String = normalize_path(self.queue[self.next].as_str());
            self.next = self.next + 1;
            assert(self@.pending =~= before.pending.drop_first());
            assert(schema::texts(self.visited@) =~= texts(self.visited@));
            if !among(&self.visited, path.as_str()) {
                let copy: String = copy_text(path.as_str());
                let ghost met = self.visited@;
                self.visited.push(copy);
                assert(texts(self.visited@) =~= texts(met).push(path@));
                if is_dependency(path.as_str()) {
                    return Some(path);
                }
            }
        }
        None
    }

    /// Notes a texture as exported.
    pub fn add_texture(&mut self, path: &str)
        ensures
            final(self).well_formed() == old(self).well_formed(),
            final(self)@ == (QueueModel {
                textures: old(self)@.textures.push(path@),
                ..old(self)@
            }),
    {
        let ghost before = self.textures@;
        let copy: String = copy_text(path);
        self.textures.push(copy);
        assert(texts(self.textures@) =~= texts(before).push(path@));
    }

    /// Notes a mask as exported.
    pub fn add_mask(&mut self)
        requires
            old(self).masks < usize::MAX,
        ensures
            final(self).well_formed() == old(self).well_formed(),
            final(self)@ == (QueueModel { masks: old(self)@.masks + 1, ..old(self)@ }),
    {
        self.masks = self.masks + 1;
    }

    /// Adds the paths that an exported document names.
    pub fn add_document(&mut self, document: &Value)
        requires
            old(self).well_formed(),
        ensures
            final(self).well_formed(),
            final(self)@ == (QueueModel {
                pending: old(self)@.pending + material::paths_in(document@),
                ..old(self)@
            }),
    {
        let ghost before = texts(self.queue@);
        collect_depot_paths(document, &mut self.queue);
        assert(texts(self.queue@).len() == self.queue@.len());
        assert(self@.pending =~= old(self)@.pending + material::paths_in(document@));
    }
}

/// The paths that the first `n` materials name.
pub open spec fn record_paths(records: Seq<RecordModel>, n: nat) -> Seq<Seq<char>>
    decreases n,
{
    if n == 0 {
        Seq::empty()
    } else {
        record_paths(records, (n - 1) as nat) + material::paths_in(
            value::Model::Object(records[n - 1].data),
        )
    }
}

/// No resource is exported twice: what comes up next was not visited before,
/// and is visited afterwards.
pub proof fn law_exported_once(q: QueueModel)
    ensures
        upcoming(q).0 matches Some(path) ==> !q.visited.contains(path) && upcoming(
            q,
        ).1.visited.contains(path),
        forall|path: Seq<char>| #[trigger] q.visited.contains(path) ==> upcoming(
            q,
        ).1.visited.contains(path),
    decreases q.pending.len(),
{
    if q.pending.len() > 0 {
        let path = normalized(q.pending[0]);
        let rest = QueueModel { pending: q.pending.drop_first(), ..q };
        let met = QueueModel { visited: q.visited.push(path), ..rest };
        assert forall|other: Seq<char>| #[trigger] q.visited.contains(other) implies met.visited.contains(
            other,
        ) by {
            let i = choose|i: int| 0 <= i < q.visited.len() && q.visited[i] == other;
            assert(met.visited[i] == other);
        }
        assert(met.visited[q.visited.len() as int] == path);
        if q.visited.contains(path) {
            law_exported_once(rest);
        } else if !material::names_dependency(path) {
            law_exported_once(met);
        }
    }
}

/// What was exported for a mesh.
#[derive(Debug, Clone, Copy, PartialEq, Eq, Structural)]
pub struct ExportSummary {
    pub materials: usize,
    pub dependencies: usize,
    pub textures: usize,
    pub masks: usize,
}

impl Default for ExportSummary {
    fn default() -> (result: Self)
        ensures
            result == (ExportSummary { materials: 0, dependencies: 0, textures: 0, masks: 0 }),
    {
        ExportSummary { materials: 0, dependencies: 0, textures: 0, masks: 0 }
    }
}

/// Counts what was exported for a mesh.
pub fn summarize(records: &Vec<MaterialRecord>, queue: &DependencyQueue) -> (result: ExportSummary)
    ensures
        result == (ExportSummary {
            materials: records@.len() as usize,
            dependencies: queue.visited@.len() as usize,
            textures: queue.textures@.len() as usize,
            masks: queue.masks,
        }),
{
    ExportSummary {
        materials: records.len(),
        dependencies: queue.visited.len(),
        textures: queue.textures.len(),
        masks: queue.masks,
    }
}

} // verus!
