//! Values that material resources leave out because they are the default.

use crate::entries;
use crate::material;
use crate::material::{malformed, Fault, MaterialError};
use crate::redpackage_reader;
use crate::redpackage_reader::storage_string;
use crate::text;
use crate::text::{chars_of, has_suffix, same_text};
use crate::value;
use crate::value::{copy_text, find_entry, set_entry, Value};
use vstd::prelude::*;

verus! {

/// Entries, with one put in unless its key is there.
pub open spec fn with_default(
    entries: Seq<(Seq<char>, value::Model)>,
    key: Seq<char>,
    content: value::Model,
) -> Seq<(Seq<char>, value::Model)> {
    if entries::find(entries, key) is Some {
        entries
    } else {
        entries::put(entries, key, content)
    }
}

/// A name.
pub open spec fn red_name(content: Seq<char>) -> value::Model {
    redpackage_reader::stored_text("CName"@, content)
}

/// The bits of one half in double precision.
pub const HALF: u64 = 0x3fe0_0000_0000_0000;

/// A layer of a multilayer setup, completed.
pub open spec fn completed_layer(layer: Seq<(Seq<char>, value::Model)>) -> Seq<
    (Seq<char>, value::Model),
> {
    let tiled = with_default(
        with_default(
            with_default(layer, "matTile"@, value::integer(1)),
            "mbTile"@,
            value::integer(1),
        ),
        "microblendContrast"@,
        value::double(HALF as nat),
    );
    let moved = with_default(
        with_default(
            with_default(
                with_default(tiled, "microblendOffsetU"@, value::integer(0)),
                "microblendOffsetV"@,
                value::integer(0),
            ),
            "offsetU"@,
            value::integer(0),
        ),
        "offsetV"@,
        value::integer(0),
    );
    with_default(
        with_default(moved, "opacity"@, value::integer(1)),
        "overrides"@,
        red_name("None"@),
    )
}

/// The first `n` layers of a multilayer setup, completed.
pub open spec fn completed_layers(layers: Seq<value::Model>, n: nat) -> Result<
    Seq<value::Model>,
    Fault,
>
    decreases n,
{
    if n == 0 {
        Ok(Seq::empty())
    } else {
        match completed_layers(layers, (n - 1) as nat) {
            Err(f) => Err(f),
            Ok(before) => match layers[n - 1] {
                value::Model::Object(layer) => Ok(
                    before.push(value::Model::Object(completed_layer(layer))),
                ),
                _ => material::bad("multilayer setup layer is not an object"@),
            },
        }
    }
}

/// The overrides that a multilayer template starts from.
pub open spec fn default_overrides() -> value::Model {
    value::Model::Object(
        entries::put(
            entries::put(
                entries::put(
                    entries::put(
                        entries::put(
                            entries::put(
                                entries::put(
                                    Seq::empty(),
                                    "$type"@,
                                    value::Model::Text("Multilayer_LayerOverrideSelection"@),
                                ),
                                "colorScale"@,
                                red_name("null_null"@),
                            ),
                            "metalLevelsIn"@,
                            red_name("null"@),
                        ),
                        "metalLevelsOut"@,
                        red_name("null"@),
                    ),
                    "normalStrength"@,
                    red_name("null"@),
                ),
                "roughLevelsIn"@,
                red_name("null"@),
            ),
            "roughLevelsOut"@,
            red_name("null"@),
        ),
    )
}

/// The levels of a colour mask that change nothing.
pub open spec fn mask_levels() -> value::Model {
    value::Model::Object(
        entries::put(
            Seq::empty(),
            "Elements"@,
            value::Model::Array(seq![value::integer(0), value::integer(0)]),
        ),
    )
}

/// The root of a multilayer setup, completed.
pub open spec fn completed_setup(root: Seq<(Seq<char>, value::Model)>) -> Result<
    Seq<(Seq<char>, value::Model)>,
    Fault,
> {
    let own = with_default(
        with_default(root, "ratio"@, value::integer(1)),
        "useNormal"@,
        value::integer(1),
    );
    match entries::find(own, "layers"@) {
        Some(value::Model::Array(layers)) => match completed_layers(layers, layers.len()) {
            Err(f) => Err(f),
            Ok(list) => Ok(entries::put(own, "layers"@, value::Model::Array(list))),
        },
        _ => Ok(own),
    }
}

/// The root of a resource, completed by its extension.
pub open spec fn completed_root(
    root: Seq<(Seq<char>, value::Model)>,
    extension: Seq<char>,
) -> Result<Seq<(Seq<char>, value::Model)>, Fault> {
    if extension == "mlsetup"@ {
        completed_setup(root)
    } else if extension == "mltemplate"@ {
        Ok(
            with_default(
                with_default(
                    with_default(root, "colorMaskLevelsOut"@, mask_levels()),
                    "tilingMultiplier"@,
                    value::integer(1),
                ),
                "defaultOverrides"@,
                default_overrides(),
            ),
        )
    } else {
        Ok(root)
    }
}

/// The head of a document with the version of its writer.
pub open spec fn with_version(
    document: Seq<(Seq<char>, value::Model)>,
) -> Seq<(Seq<char>, value::Model)> {
    match entries::find(document, "Header"@) {
        Some(value::Model::Object(header)) => entries::put(
            document,
            "Header"@,
            value::Model::Object(
                entries::put(
                    header,
                    "WolvenKitVersion"@,
                    value::Model::Text("8.17-compatible (ghostline-red 0.1.0)"@),
                ),
            ),
        ),
        _ => document,
    }
}

/// A document with the values that its resource leaves out.
pub open spec fn completed(document: value::Model, extension: Seq<char>) -> Result<
    value::Model,
    Fault,
> {
    match document {
        value::Model::Object(entries) => {
            let headed = with_version(entries);
            match entries::find(headed, "Data"@) {
                Some(value::Model::Object(data)) => match entries::find(data, "RootChunk"@) {
                    Some(value::Model::Object(root)) => match completed_root(root, extension) {
                        Err(f) => Err(f),
                        Ok(full) => Ok(
                            value::Model::Object(
                                entries::put(
                                    headed,
                                    "Data"@,
                                    value::Model::Object(
                                        entries::put(
                                            data,
                                            "RootChunk"@,
                                            value::Model::Object(full),
                                        ),
                                    ),
                                ),
                            ),
                        ),
                    },
                    _ => material::bad("resource JSON has no root chunk"@),
                },
                _ => material::bad("resource JSON has no root chunk"@),
            }
        },
        _ => material::bad("resource JSON has no root chunk"@),
    }
}

fn set_default(entries: &mut Vec<(String, Value)>, key: &str, content: Value)
    ensures
        value::entry_models(final(entries)@) == with_default(
            value::entry_models(old(entries)@),
            key@,
            content@,
        ),
{
    if find_entry(entries, key).is_none() {
        set_entry(entries, key, content);
    }
}

fn copy_entries(entries: &Vec<(String, Value)>) -> (result: Vec<(String, Value)>)
    ensures
        value::entry_models(result@) == value::entry_models(entries@),
{
    let mut out: Vec<(String, Value)> = Vec::new();
    let ghost all = value::entry_models(entries@);
    proof {
        value::lemma_entry_models(entries@);
        assert(value::entry_models(out@) =~= all.subrange(0, 0));
    }
    let mut i: usize = 0;
    while i < entries.len()
        invariant
            i <= entries@.len(),
            all == value::entry_models(entries@),
            all.len() == entries@.len(),
            forall|k: int|
                0 <= k < all.len() ==> #[trigger] all[k] == (
                    entries@[k].0@,
                    value::model(entries@[k].1),
                ),
            value::entry_models(out@) == all.subrange(0, i as int),
        decreases entries@.len() - i,
    {
        let entry: (String, Value) = (copy_text(entries[i].0.as_str()), entries[i].1.copy());
        proof {
            value::lemma_entry_models_push(out@, entry);
            assert(all.subrange(0, i + 1) =~= all.subrange(0, i as int).push(all[i as int]));
        }
        out.push(entry);
        i = i + 1;
    }
    assert(all.subrange(0, i as int) =~= all);
    out
}

fn complete_layer(entries: &Vec<(String, Value)>) -> (result: Value)
    ensures
        result@ == value::Model::Object(completed_layer(value::entry_models(entries@))),
{
    let mut layer: Vec<(String, Value)> = copy_entries(entries);
    set_default(&mut layer, "matTile", Value::integer(1));
    set_default(&mut layer, "mbTile", Value::integer(1));
    set_default(&mut layer, "microblendContrast", Value::double(HALF));
    set_default(&mut layer, "microblendOffsetU", Value::integer(0));
    set_default(&mut layer, "microblendOffsetV", Value::integer(0));
    set_default(&mut layer, "offsetU", Value::integer(0));
    set_default(&mut layer, "offsetV", Value::integer(0));
    set_default(&mut layer, "opacity", Value::integer(1));
    set_default(&mut layer, "overrides", storage_string("CName", "None"));
    Value::Object(layer)
}

proof fn lemma_layers_fail(layers: Seq<value::Model>, k: nat, n: nat)
    requires
        k <= n,
        completed_layers(layers, k) is Err,
    ensures
        completed_layers(layers, n) == completed_layers(layers, k),
    decreases n,
{
    if k < n {
        lemma_layers_fail(layers, k, (n - 1) as nat);
    }
}

#[verifier::loop_isolation(false)]
fn complete_layers(layers: &Vec<Value>) -> (result: Result<Vec<Value>, MaterialError>)
    ensures
        match completed_layers(value::models(layers@), layers@.len()) {
            Ok(list) => result matches Ok(r) && value::models(r@) == list,
            Err(f) => result matches Err(e) && e@ == f,
        },
{
    let ghost all = value::models(layers@);
    proof {
        value::lemma_models(layers@);
    }
    let mut out: Vec<Value> = Vec::new();
    assert(value::models(out@) =~= Seq::empty());
    let mut i: usize = 0;
    while i < layers.len()
        invariant
            i <= layers@.len(),
            completed_layers(all, i as nat) == Ok::<Seq<value::Model>, Fault>(value::models(out@)),
        decreases layers@.len() - i,
    {
        assert(all[i as int] == value::model(layers@[i as int]));
        match &layers[i] {
            Value::Object(layer) => {
                let item: Value = complete_layer(layer);
                proof {
                    value::lemma_models_push(out@, item);
                }
                out.push(item);
            },
            _ => {
                proof {
                    lemma_layers_fail(all, (i + 1) as nat, all.len());
                }
                return Err(malformed("multilayer setup layer is not an object"));
            },
        }
        i = i + 1;
    }
    Ok(out)
}

fn new_default_overrides() -> (result: Value)
    ensures
        result@ == default_overrides(),
{
    let mut fields: Vec<(String, Value)> = Vec::new();
    set_entry(&mut fields, "$type", Value::text("Multilayer_LayerOverrideSelection"));
    set_entry(&mut fields, "colorScale", storage_string("CName", "null_null"));
    set_entry(&mut fields, "metalLevelsIn", storage_string("CName", "null"));
    set_entry(&mut fields, "metalLevelsOut", storage_string("CName", "null"));
    set_entry(&mut fields, "normalStrength", storage_string("CName", "null"));
    set_entry(&mut fields, "roughLevelsIn", storage_string("CName", "null"));
    set_entry(&mut fields, "roughLevelsOut", storage_string("CName", "null"));
    Value::Object(fields)
}

fn new_mask_levels() -> (result: Value)
    ensures
        result@ == mask_levels(),
{
    let mut items: Vec<Value> = Vec::new();
    proof {
        assert(value::models(items@) =~= Seq::empty());
    }
    let low: Value = Value::integer(0);
    proof {
        value::lemma_models_push(items@, low);
    }
    items.push(low);
    let high: Value = Value::integer(0);
    proof {
        value::lemma_models_push(items@, high);
    }
    items.push(high);
    assert(value::models(items@) =~= seq![value::integer(0), value::integer(0)]);
    let mut fields: Vec<(String, Value)> = Vec::new();
    set_entry(&mut fields, "Elements", Value::Array(items));
    Value::Object(fields)
}

fn complete_root(entries: &Vec<(String, Value)>, extension: &str) -> (result: Result<
    Vec<(String, Value)>,
    MaterialError,
>)
    ensures
        match completed_root(value::entry_models(entries@), extension@) {
            Ok(full) => result matches Ok(r) && value::entry_models(r@) == full,
            Err(f) => result matches Err(e) && e@ == f,
        },
{
    let mut root: Vec<(String, Value)> = copy_entries(entries);
    if same_text(extension, "mlsetup") {
        set_default(&mut root, "ratio", Value::integer(1));
        set_default(&mut root, "useNormal", Value::integer(1));
        let mut full: Option<Vec<Value>> = None;
        if let Some(Value::Array(layers)) = find_entry(&root, "layers") {
            proof {
                value::lemma_models(layers@);
            }
            match complete_layers(layers) {
                Ok(list) => {
                    full = Some(list);
                },
                Err(error) => return Err(error),
            }
        }
        if let Some(list) = full {
            set_entry(&mut root, "layers", Value::Array(list));
        }
    } else if same_text(extension, "mltemplate") {
        set_default(&mut root, "colorMaskLevelsOut", new_mask_levels());
        set_default(&mut root, "tilingMultiplier", Value::integer(1));
        set_default(&mut root, "defaultOverrides", new_default_overrides());
    }
    Ok(root)
}

fn set_version(entries: &mut Vec<(String, Value)>)
    ensures
        value::entry_models(final(entries)@) == with_version(value::entry_models(old(entries)@)),
{
    let mut headed: Option<Vec<(String, Value)>> = None;
    if let Some(Value::Object(header)) = find_entry(entries, "Header") {
        let mut fields: Vec<(String, Value)> = copy_entries(header);
        set_entry(
            &mut fields,
            "WolvenKitVersion",
            Value::text("8.17-compatible (ghostline-red 0.1.0)"),
        );
        headed = Some(fields);
    }
    if let Some(fields) = headed {
        set_entry(entries, "Header", Value::Object(fields));
    }
}

/// Puts the values into a document that its resource leaves out.
pub fn complete_blender_defaults(document: &Value, extension: &str) -> (result: Result<
    Value,
    MaterialError,
>)
    ensures
        match completed(document@, extension@) {
            Ok(full) => result matches Ok(r) && r@ == full,
            Err(f) => result matches Err(e) && e@ == f,
        },
{
    let entries: &Vec<(String, Value)> = match document {
        Value::Object(entries) => entries,
        _ => return Err(malformed("resource JSON has no root chunk")),
    };
    let mut fields: Vec<(String, Value)> = copy_entries(entries);
    set_version(&mut fields);
    let content: Value = match find_entry(&fields, "Data") {
        Some(Value::Object(data)) => match find_entry(data, "RootChunk") {
            Some(Value::Object(root)) => match complete_root(root, extension) {
                Ok(full) => {
                    let mut copy: Vec<(String, Value)> = copy_entries(data);
                    set_entry(&mut copy, "RootChunk", Value::Object(full));
                    Value::Object(copy)
                },
                Err(error) => return Err(error),
            },
            _ => return Err(malformed("resource JSON has no root chunk")),
        },
        _ => return Err(malformed("resource JSON has no root chunk")),
    };
    set_entry(&mut fields, "Data", content);
    Ok(Value::Object(fields))
}

/// A vector of four integers.
pub open spec fn vector4(x: int, y: int, z: int, w: int) -> value::Model {
    value::Model::Object(
        entries::put(
            entries::put(
                entries::put(
                    entries::put(Seq::empty(), "X"@, value::integer(x)),
                    "Y"@,
                    value::integer(y),
                ),
                "Z"@,
                value::integer(z),
            ),
            "W"@,
            value::integer(w),
        ),
    )
}

fn new_vector4(x: i128, y: i128, z: i128, w: i128) -> (result: Value)
    ensures
        result@ == vector4(x as int, y as int, z as int, w as int),
{
    let mut fields: Vec<(String, Value)> = Vec::new();
    set_entry(&mut fields, "X", Value::integer(x));
    set_entry(&mut fields, "Y", Value::integer(y));
    set_entry(&mut fields, "Z", Value::integer(z));
    set_entry(&mut fields, "W", Value::integer(w));
    Value::Object(fields)
}

/// What a multilayered material shows of its textures.
pub open spec fn multilayered_textures() -> Seq<(Seq<char>, value::Model)> {
    entries::put(
        entries::put(
            entries::put(
                entries::put(
                    entries::put(
                        entries::put(
                            Seq::empty(),
                            "GlobalNormal"@,
                            value::Model::Text("engine\\textures\\editor\\normal.xbm"@),
                        ),
                        "MultilayerMask"@,
                        value::Model::Text(
                            "engine\\materials\\defaults\\multilayer_default.mlmask"@,
                        ),
                    ),
                    "MultilayerSetup"@,
                    value::Model::Text("engine\\materials\\defaults\\multilayer_default.mlsetup"@),
                ),
                "GlobalNormalIntensity"@,
                value::integer(1),
            ),
            "GlobalNormalUVScale"@,
            vector4(1, 1, 0, 0),
        ),
        "GlobalNormalUVBias"@,
        vector4(0, 0, 0, 0),
    )
}

/// What a multilayered material shows besides its textures.
pub open spec fn multilayered_masks(
    shown: Seq<(Seq<char>, value::Model)>,
) -> Seq<(Seq<char>, value::Model)> {
    entries::put(
        entries::put(
            entries::put(
                entries::put(
                    entries::put(
                        entries::put(shown, "MaskAtlas"@, value::Model::Text(""@)),
                        "MaskTiles"@,
                        value::Model::Null,
                    ),
                    "Layers"@,
                    value::Model::Null,
                ),
                "LayersStartIndex"@,
                value::integer(0),
            ),
            "SurfaceTexAspectRatio"@,
            value::integer(0),
        ),
        "MaskToTileScale"@,
        vector4(0, 0, 0, 0),
    )
}

/// What a multilayered material shows of sizes.
pub open spec fn multilayered_sizes(
    shown: Seq<(Seq<char>, value::Model)>,
) -> Seq<(Seq<char>, value::Model)> {
    entries::put(
        entries::put(
            entries::put(
                entries::put(
                    entries::put(
                        entries::put(shown, "MaskTileSize"@, value::integer(0)),
                        "MaskAtlasDims"@,
                        vector4(0, 0, 0, 0),
                    ),
                    "MaskBaseResolution"@,
                    vector4(0, 0, 0, 0),
                ),
                "SetupLayerMask"@,
                value::integer(0),
            ),
            "NormalsTextureDDXYMultiplier"@,
            value::integer(1),
        ),
        "MicroblendsTextureDDXYMultiplier"@,
        value::integer(1),
    )
}

/// The values that a template starts from.
pub open spec fn template_values(template: Seq<char>) -> value::Model {
    value::Model::Object(
        if text::ends_with(template, "multilayered.mt"@) {
            multilayered_sizes(multilayered_masks(multilayered_textures()))
        } else {
            Seq::empty()
        },
    )
}

fn new_multilayered_textures() -> (result: Vec<(String, Value)>)
    ensures
        value::entry_models(result@) == multilayered_textures(),
{
    let mut fields: Vec<(String, Value)> = Vec::new();
    set_entry(&mut fields, "GlobalNormal", Value::text("engine\\textures\\editor\\normal.xbm"));
    set_entry(
        &mut fields,
        "MultilayerMask",
        Value::text("engine\\materials\\defaults\\multilayer_default.mlmask"),
    );
    set_entry(
        &mut fields,
        "MultilayerSetup",
        Value::text("engine\\materials\\defaults\\multilayer_default.mlsetup"),
    );
    set_entry(&mut fields, "GlobalNormalIntensity", Value::integer(1));
    set_entry(&mut fields, "GlobalNormalUVScale", new_vector4(1, 1, 0, 0));
    set_entry(&mut fields, "GlobalNormalUVBias", new_vector4(0, 0, 0, 0));
    fields
}

fn add_multilayered_masks(fields: &mut Vec<(String, Value)>)
    ensures
        value::entry_models(final(fields)@) == multilayered_masks(
            value::entry_models(old(fields)@),
        ),
{
    set_entry(fields, "MaskAtlas", Value::text(""));
    set_entry(fields, "MaskTiles", Value::Null);
    set_entry(fields, "Layers", Value::Null);
    set_entry(fields, "LayersStartIndex", Value::integer(0));
    set_entry(fields, "SurfaceTexAspectRatio", Value::integer(0));
    set_entry(fields, "MaskToTileScale", new_vector4(0, 0, 0, 0));
}

fn add_multilayered_sizes(fields: &mut Vec<(String, Value)>)
    ensures
        value::entry_models(final(fields)@) == multilayered_sizes(
            value::entry_models(old(fields)@),
        ),
{
    set_entry(fields, "MaskTileSize", Value::integer(0));
    set_entry(fields, "MaskAtlasDims", new_vector4(0, 0, 0, 0));
    set_entry(fields, "MaskBaseResolution", new_vector4(0, 0, 0, 0));
    set_entry(fields, "SetupLayerMask", Value::integer(0));
    set_entry(fields, "NormalsTextureDDXYMultiplier", Value::integer(1));
    set_entry(fields, "MicroblendsTextureDDXYMultiplier", Value::integer(1));
}

/// The values that a template starts from.
pub fn template_defaults(template: &str) -> (result: Value)
    ensures
        result@ == template_values(template@),
{
    let chars: Vec<char> = chars_of(template);
    if has_suffix(chars.as_slice(), "multilayered.mt") {
        let mut fields: Vec<(String, Value)> = new_multilayered_textures();
        add_multilayered_masks(&mut fields);
        add_multilayered_sizes(&mut fields);
        Value::Object(fields)
    } else {
        let nothing: Vec<(String, Value)> = Vec::new();
        assert(value::entry_models(nothing@) =~= Seq::empty());
        Value::Object(nothing)
    }
}

} // verus!
