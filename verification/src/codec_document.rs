//! Whole resources: the values of all exports, and the document in which each
//! value stands where it is first referred to.

use crate::codec_handles;
use crate::codec_handles::{expand_handles, reachable_handle_ids};
use crate::codec_reader;
use crate::codec_reader::{is_packed, malformed, u32_at, CodecError, Decoder, Fault, Resource};
use crate::cr2w;
use crate::cr2w::{inspect, Cr2wBuffer, Cr2wInspection};
use crate::entries;
use crate::kraken::decoder;
use crate::kraken::decoder::decode;
use crate::redpackage_reader;
use crate::redpackage_reader::storage_string;
use crate::schema;
use crate::schema::{ClassModel, RedClass, RedSchema};
use crate::sequence::part;
use crate::text::chars_of;
use crate::value;
use crate::value::{copy_text, set_entry, Value};
use vstd::prelude::*;

verus! {

/// The value of one export, which takes all the bytes of the export.
pub open spec fn export_value(r: Resource, i: nat) -> Result<value::Model, Fault> {
    let export = r.file.exports[i as int];
    match crate::codec::class_at(
        r,
        export.class_name,
        export.data_offset as nat,
        export.data_size as nat,
    ) {
        Err(f) => Err(f),
        Ok((m, end)) => if end != export.data_offset + export.data_size {
            codec_reader::fault(end, "export trailing bytes"@)
        } else {
            Ok(m)
        },
    }
}

/// The values of the first exports.
pub open spec fn export_values(r: Resource, n: nat) -> Result<Seq<value::Model>, Fault>
    decreases n,
{
    if n == 0 {
        Ok(Seq::empty())
    } else {
        match export_values(r, (n - 1) as nat) {
            Err(f) => Err(f),
            Ok(before) => match export_value(r, (n - 1) as nat) {
                Err(f) => Err(f),
                Ok(m) => Ok(before.push(m)),
            },
        }
    }
}

proof fn lemma_export_values_fail(r: Resource, k: nat, n: nat)
    requires
        k <= n,
        export_values(r, k) is Err,
    ensures
        export_values(r, n) == export_values(r, k),
    decreases n,
{
    if k < n {
        lemma_export_values_fail(r, k, (n - 1) as nat);
    }
}

/// An export with its place and its class.
pub open spec fn export_item(index: nat, class: Seq<char>, value: value::Model) -> value::Model {
    value::Model::Object(
        entries::put(
            entries::put(
                entries::put(Seq::empty(), "index"@, value::integer(index as int)),
                "$type"@,
                value::Model::Text(class),
            ),
            "value"@,
            value,
        ),
    )
}

/// All exports, each with its place and its class.
pub open spec fn export_list(r: Resource) -> Result<value::Model, Fault> {
    match export_values(r, r.file.exports.len()) {
        Err(f) => Err(f),
        Ok(values) => Ok(
            value::Model::Object(
                entries::put(
                    Seq::empty(),
                    "exports"@,
                    value::Model::Array(
                        Seq::new(
                            values.len(),
                            |i: int|
                                export_item(i as nat, r.file.exports[i].class_name, values[i]),
                        ),
                    ),
                ),
            ),
        ),
    }
}

/// A resource, given its bytes and what is known of its types.
pub open spec fn resource(
    bytes: Seq<u8>,
    file: cr2w::InspectionModel,
    classes: Seq<(Seq<char>, ())>,
    kinds: Option<(Seq<(Seq<char>, ())>, Seq<(Seq<char>, ())>)>,
    unpacked: Seq<Option<Seq<u8>>>,
) -> Resource {
    Resource {
        bytes,
        file,
        classes,
        enums: match kinds {
            Some((enums, _)) => Some(enums),
            None => None,
        },
        bitfields: match kinds {
            Some((_, bitfields)) => Some(bitfields),
            None => None,
        },
        unpacked,
    }
}

/// All exports of a resource.
pub open spec fn exports_of(
    bytes: Seq<u8>,
    classes: Seq<(Seq<char>, ())>,
    kinds: Option<(Seq<(Seq<char>, ())>, Seq<(Seq<char>, ())>)>,
    unpacked: Seq<Option<Seq<u8>>>,
) -> Result<value::Model, Fault> {
    match cr2w::inspection(bytes) {
        Err(error) => Err(Fault::Cr2w(error)),
        Ok(file) => export_list(resource(bytes, file, classes, kinds, unpacked)),
    }
}

/// The chunks of embedded files.
pub open spec fn chunks(embedded: Seq<cr2w::EmbeddedModel>) -> Seq<nat> {
    embedded.map_values(|item: cr2w::EmbeddedModel| item.chunk_index as nat)
}

/// An embedded file.
pub open spec fn embedded_file(path: Seq<char>, content: value::Model) -> value::Model {
    value::Model::Object(
        entries::put(
            entries::put(
                Seq::empty(),
                "FileName"@,
                redpackage_reader::stored_text("ResourcePath"@, path),
            ),
            "Content"@,
            content,
        ),
    )
}

/// The first embedded files, and the exports that were met up to them.
pub open spec fn embedded_files(
    embedded: Seq<cr2w::EmbeddedModel>,
    exports: Seq<value::Model>,
    ids: Seq<Option<nat>>,
    visited: Seq<bool>,
    n: nat,
) -> Result<(Seq<value::Model>, Seq<bool>), Fault>
    decreases n,
{
    if n == 0 {
        Ok((Seq::empty(), visited))
    } else {
        match embedded_files(embedded, exports, ids, visited, (n - 1) as nat) {
            Err(f) => Err(f),
            Ok((before, met)) => match codec_handles::expanded(
                exports[embedded[n - 1].chunk_index as int],
                exports,
                ids,
                met,
                exports.len(),
            ) {
                Err(f) => Err(f),
                Ok((content, after)) => Ok(
                    (before.push(embedded_file(embedded[n - 1].depot_path, content)), after),
                ),
            },
        }
    }
}

proof fn lemma_embedded_files_fail(
    embedded: Seq<cr2w::EmbeddedModel>,
    exports: Seq<value::Model>,
    ids: Seq<Option<nat>>,
    visited: Seq<bool>,
    k: nat,
    n: nat,
)
    requires
        k <= n,
        embedded_files(embedded, exports, ids, visited, k) is Err,
    ensures
        embedded_files(embedded, exports, ids, visited, n) == embedded_files(
            embedded,
            exports,
            ids,
            visited,
            k,
        ),
    decreases n,
{
    if k < n {
        lemma_embedded_files_fail(embedded, exports, ids, visited, k, (n - 1) as nat);
    }
}

/// The head of a document.
pub open spec fn document_header(name: Seq<char>) -> value::Model {
    value::Model::Object(
        entries::put(
            entries::put(
                entries::put(
                    entries::put(
                        entries::put(
                            entries::put(
                                Seq::empty(),
                                "WolvenKitVersion"@,
                                value::Model::Text("8.17-compatible (ghostline-red 0.1.0)"@),
                            ),
                            "WKitJsonVersion"@,
                            value::Model::Text("0.0.9"@),
                        ),
                        "GameVersion"@,
                        value::integer(2310),
                    ),
                    "ExportedDateTime"@,
                    value::Model::Text("1970-01-01T00:00:00Z"@),
                ),
                "DataType"@,
                value::Model::Text("CR2W"@),
            ),
            "ArchiveFileName"@,
            value::Model::Text(name),
        ),
    )
}

/// The body of a document. Embedded files are named only where there are any.
pub open spec fn document_data(
    header: cr2w::HeaderModel,
    root: value::Model,
    files: Seq<value::Model>,
) -> value::Model {
    let data = entries::put(
        entries::put(
            entries::put(Seq::empty(), "Version"@, value::integer(header.version as int)),
            "BuildVersion"@,
            value::integer(header.build_version as int),
        ),
        "RootChunk"@,
        root,
    );
    value::Model::Object(
        if files.len() == 0 {
            data
        } else {
            entries::put(data, "EmbeddedFiles"@, value::Model::Array(files))
        },
    )
}

/// A document.
pub open spec fn document(name: Seq<char>, data: value::Model) -> value::Model {
    value::Model::Object(
        entries::put(
            entries::put(Seq::empty(), "Header"@, document_header(name)),
            "Data"@,
            data,
        ),
    )
}

/// The document of a resource, given the values of its exports.
pub open spec fn expanded_document(
    file: cr2w::InspectionModel,
    exports: Seq<value::Model>,
    order: Option<Seq<(Seq<char>, ClassModel)>>,
    name: Seq<char>,
) -> Result<value::Model, Fault> {
    match codec_handles::handle_ids(exports, chunks(file.embedded), order) {
        Err(f) => Err(f),
        Ok(ids) => match codec_handles::expanded(
            exports[0],
            exports,
            ids,
            Seq::new(exports.len(), |i: int| false),
            exports.len(),
        ) {
            Err(f) => Err(f),
            Ok((root, met)) => match embedded_files(
                file.embedded,
                exports,
                ids,
                met,
                file.embedded.len(),
            ) {
                Err(f) => Err(f),
                Ok((files, _)) => Ok(document(name, document_data(file.header, root, files))),
            },
        },
    }
}

/// The document of a resource. The order of properties in `order`, if it is
/// known, decides in which order identities are given to exports.
pub open spec fn document_of(
    bytes: Seq<u8>,
    classes: Seq<(Seq<char>, ())>,
    kinds: Option<(Seq<(Seq<char>, ())>, Seq<(Seq<char>, ())>)>,
    unpacked: Seq<Option<Seq<u8>>>,
    order: Option<Seq<(Seq<char>, ClassModel)>>,
    name: Seq<char>,
) -> Result<value::Model, Fault> {
    match cr2w::inspection(bytes) {
        Err(error) => Err(Fault::Cr2w(error)),
        Ok(file) => match export_values(
            resource(bytes, file, classes, kinds, unpacked),
            file.exports.len(),
        ) {
            Err(f) => Err(f),
            Ok(exports) => expanded_document(file, exports, order, name),
        },
    }
}

/// Where the compressed part of a buffer stands, and the size that it
/// decompresses to, if the buffer is stored in compressed form.
pub open spec fn packed_part(bytes: Seq<u8>, buffer: Cr2wBuffer) -> Option<(nat, nat, nat)> {
    let end = (buffer.offset + buffer.disk_size) as nat;
    if end > bytes.len() || buffer.disk_size < 8 || !codec_reader::packed(
        bytes.subrange(buffer.offset as int, end as int),
    ) {
        None
    } else {
        Some(
            (
                (buffer.offset + 8) as nat,
                end,
                cr2w::field(bytes, (buffer.offset + 4) as nat, 4),
            ),
        )
    }
}

/// Finds the compressed part of a buffer and its decompressed size.
pub fn find_packed_part(bytes: &[u8], buffer: &Cr2wBuffer) -> (result: Option<
    (usize, usize, usize),
>)
    ensures
        match packed_part(bytes@, *buffer) {
            Some((start, end, size)) => result matches Some(r) && r.0 == start && r.1 == end && r.2
                == size,
            None => result is None,
        },
{
    let start: usize = buffer.offset as usize;
    let size: usize = buffer.disk_size as usize;
    if start > bytes.len() || size > bytes.len() - start || size < 8 {
        return None;
    }
    if !is_packed(part(bytes, start, start + size)) {
        return None;
    }
    match u32_at(bytes, start + 4) {
        Ok(declared) => Some((start + 8, start + size, declared as usize)),
        Err(_) => None,
    }
}

/// What a buffer decompresses to, if it is stored in compressed form and its
/// stream can be decoded.
pub open spec fn unpacked_buffer(bytes: Seq<u8>, buffer: Cr2wBuffer) -> Option<Seq<u8>> {
    match packed_part(bytes, buffer) {
        None => None,
        Some((start, end, size)) => match decoder::decoded(
            bytes.subrange(start as int, end as int),
            size,
        ) {
            Ok(content) => Some(content),
            Err(_) => None,
        },
    }
}

/// Decodes the buffers that are stored in compressed form. One whose stream
/// cannot be decoded is left out.
pub fn unpack_buffers(bytes: &[u8], buffers: &Vec<Cr2wBuffer>) -> (result: Vec<Option<Vec<u8>>>)
    ensures
        codec_reader::buffer_contents(result@) == Seq::new(
            buffers@.len(),
            |i: int| unpacked_buffer(bytes@, buffers@[i]),
        ),
{
    let ghost wanted = Seq::new(
        buffers@.len(),
        |i: int| unpacked_buffer(bytes@, buffers@[i]),
    );
    let mut out: Vec<Option<Vec<u8>>> = Vec::new();
    let mut i: usize = 0;
    while i < buffers.len()
        invariant
            i <= buffers@.len(),
            out@.len() == i,
            wanted == Seq::new(buffers@.len(), |i: int| unpacked_buffer(bytes@, buffers@[i])),
            forall|k: int|
                0 <= k < i ==> #[trigger] codec_reader::buffer_contents(out@)[k] == wanted[k],
        decreases buffers@.len() - i,
    {
        let ghost before = out@;
        let content: Option<Vec<u8>> = match find_packed_part(bytes, &buffers[i]) {
            None => None,
            Some((start, end, size)) => {
                let stream: &[u8] = part(bytes, start, end);
                assert(stream@ =~= bytes@.subrange(start as int, end as int));
                match decode(stream, size) {
                    Ok(content) => Some(content),
                    Err(_) => None,
                }
            },
        };
        out.push(content);
        proof {
            let contents = codec_reader::buffer_contents(out@);
            assert forall|k: int| 0 <= k < i + 1 implies #[trigger] contents[k] == wanted[k] by {
                if k < i {
                    assert(contents[k] == codec_reader::buffer_contents(before)[k]);
                } else {
                    assert(wanted[k] == unpacked_buffer(bytes@, buffers@[k]));
                }
            }
        }
        i = i + 1;
    }
    assert(codec_reader::buffer_contents(out@) =~= wanted);
    out
}

#[verifier::loop_isolation(false)]
fn read_exports(decoder: &Decoder<'_>) -> (result: Result<Vec<Value>, CodecError>)
    ensures
        match export_values(decoder@, decoder@.file.exports.len()) {
            Ok(values) => result matches Ok(r) && value::models(r@) == values,
            Err(f) => result matches Err(e) && e@ == f,
        },
{
    let ghost all = decoder@.file.exports;
    let mut values: Vec<Value> = Vec::new();
    let mut i: usize = 0;
    while i < decoder.file.exports.len()
        invariant
            i <= decoder.file.exports@.len(),
            export_values(decoder@, i as nat) == Ok::<Seq<value::Model>, Fault>(
                value::models(values@),
            ),
        decreases decoder.file.exports@.len() - i,
    {
        assert(all[i as int] == decoder.file.exports@[i as int]@);
        let start: usize = decoder.file.exports[i].data_offset as usize;
        let size: usize = decoder.file.exports[i].data_size as usize;
        let class: Vec<char> = chars_of(decoder.file.exports[i].class_name.as_str());
        match decoder.read_class(class.as_slice(), start, size) {
            Err(error) => {
                proof {
                    lemma_export_values_fail(decoder@, (i + 1) as nat, all.len());
                }
                return Err(error);
            },
            Ok((value, end)) => {
                if end < start || end - start != size {
                    proof {
                        lemma_export_values_fail(decoder@, (i + 1) as nat, all.len());
                    }
                    return Err(malformed(end, "export trailing bytes"));
                }
                proof {
                    value::lemma_models_push(values@, value);
                }
                values.push(value);
            },
        }
        i = i + 1;
    }
    Ok(values)
}

/// What is known of enumerations and bit fields.
pub open spec fn kinds_of(enums: Option<&Vec<String>>, bitfields: Option<&Vec<String>>) -> Option<
    (Seq<(Seq<char>, ())>, Seq<(Seq<char>, ())>),
> {
    match (enums, bitfields) {
        (Some(enums), Some(bitfields)) => Some(
            (entries::name_keys(enums@), entries::name_keys(bitfields@)),
        ),
        _ => None,
    }
}

fn export_object(index: usize, class: &str, value: Value) -> (result: Value)
    ensures
        result@ == export_item(index as nat, class@, value@),
{
    let mut fields: Vec<(String, Value)> = Vec::new();
    set_entry(&mut fields, "index", Value::integer(index as i128));
    set_entry(&mut fields, "$type", Value::text(class));
    set_entry(&mut fields, "value", value);
    Value::Object(fields)
}

fn decode_list(
    bytes: &[u8],
    classes: &Vec<String>,
    enums: Option<&Vec<String>>,
    bitfields: Option<&Vec<String>>,
    unpacked: &Vec<Option<Vec<u8>>>,
) -> (result: Result<Value, CodecError>)
    requires
        enums is Some <==> bitfields is Some,
    ensures
        match exports_of(
            bytes@,
            entries::name_keys(classes@),
            kinds_of(enums, bitfields),
            codec_reader::buffer_contents(unpacked@),
        ) {
            Ok(m) => result matches Ok(r) && r@ == m,
            Err(f) => result matches Err(e) && e@ == f,
        },
{
    let file: Cr2wInspection = match inspect(bytes) {
        Ok(file) => file,
        Err(error) => return Err(CodecError::Cr2w(error)),
    };
    let decoder: Decoder<'_> = Decoder { bytes, file: &file, classes, enums, bitfields, unpacked };
    let ghost r = resource(
        bytes@,
        file@,
        entries::name_keys(classes@),
        kinds_of(enums, bitfields),
        codec_reader::buffer_contents(unpacked@),
    );
    assert(decoder@ == r);
    let values: Vec<Value> = match read_exports(&decoder) {
        Ok(values) => values,
        Err(error) => return Err(error),
    };
    let ghost all = value::models(values@);
    let ghost wanted = Seq::new(
        all.len(),
        |i: int| export_item(i as nat, r.file.exports[i].class_name, all[i]),
    );
    proof {
        value::lemma_models(values@);
        lemma_export_count(r, r.file.exports.len());
    }
    let count: usize = values.len();
    let mut items: Vec<Value> = Vec::new();
    assert(value::models(items@) =~= wanted.subrange(0, 0));
    let mut i: usize = 0;
    for value in iter: values.into_iter()
        invariant
            i == iter.index(),
            count == values@.len(),
            iter.seq() == values@,
            all == value::models(values@),
            all.len() == values@.len(),
            forall|k: int| 0 <= k < values@.len() ==> #[trigger] all[k] == value::model(values@[k]),
            all.len() == file.exports@.len(),
            r.file == file@,
            wanted == Seq::new(
                all.len(),
                |i: int| export_item(i as nat, r.file.exports[i].class_name, all[i]),
            ),
            value::models(items@) == wanted.subrange(0, i as int),
    {
        assert(i < count);
        assert(r.file.exports[i as int] == file.exports@[i as int]@);
        assert(all[i as int] == value@);
        let item: Value = export_object(i, file.exports[i].class_name.as_str(), value);
        proof {
            value::lemma_models_push(items@, item);
            assert(wanted.subrange(0, i + 1) =~= wanted.subrange(0, i as int).push(
                wanted[i as int],
            ));
        }
        items.push(item);
        i = i + 1;
    }
    assert(wanted.subrange(0, i as int) =~= wanted);
    let mut fields: Vec<(String, Value)> = Vec::new();
    set_entry(&mut fields, "exports", Value::Array(items));
    Ok(Value::Object(fields))
}

proof fn lemma_export_count(r: Resource, n: nat)
    ensures
        export_values(r, n) matches Ok(values) ==> values.len() == n,
    decreases n,
{
    if n > 0 {
        lemma_export_count(r, (n - 1) as nat);
    }
}

/// Decodes all exports of a resource.
pub fn decode_exports(
    bytes: &[u8],
    classes: &Vec<String>,
    unpacked: &Vec<Option<Vec<u8>>>,
) -> (result: Result<Value, CodecError>)
    ensures
        match exports_of(
            bytes@,
            entries::name_keys(classes@),
            None,
            codec_reader::buffer_contents(unpacked@),
        ) {
            Ok(m) => result matches Ok(r) && r@ == m,
            Err(f) => result matches Err(e) && e@ == f,
        },
{
    decode_list(bytes, classes, None, None, unpacked)
}

/// Decodes all exports of a resource with official type information.
pub fn decode_exports_with_red_schema(
    bytes: &[u8],
    schema: &RedSchema,
    unpacked: &Vec<Option<Vec<u8>>>,
) -> (result: Result<Value, CodecError>)
    ensures
        match exports_of(
            bytes@,
            schema::class_keys(schema@.classes, schema@.aliases),
            Some((schema@.enums, schema@.bitfields)),
            codec_reader::buffer_contents(unpacked@),
        ) {
            Ok(m) => result matches Ok(r) && r@ == m,
            Err(f) => result matches Err(e) && e@ == f,
        },
{
    let classes: Vec<String> = schema.class_names();
    decode_list(bytes, &classes, Some(&schema.enums), Some(&schema.bitfields), unpacked)
}

fn new_embedded_file(path: &str, content: Value) -> (result: Value)
    ensures
        result@ == embedded_file(path@, content@),
{
    let mut fields: Vec<(String, Value)> = Vec::new();
    set_entry(&mut fields, "FileName", storage_string("ResourcePath", path));
    set_entry(&mut fields, "Content", content);
    Value::Object(fields)
}

fn new_document_header(name: &str) -> (result: Value)
    ensures
        result@ == document_header(name@),
{
    let mut fields: Vec<(String, Value)> = Vec::new();
    set_entry(
        &mut fields,
        "WolvenKitVersion",
        Value::text("8.17-compatible (ghostline-red 0.1.0)"),
    );
    set_entry(&mut fields, "WKitJsonVersion", Value::text("0.0.9"));
    set_entry(&mut fields, "GameVersion", Value::integer(2310));
    set_entry(&mut fields, "ExportedDateTime", Value::text("1970-01-01T00:00:00Z"));
    set_entry(&mut fields, "DataType", Value::text("CR2W"));
    set_entry(&mut fields, "ArchiveFileName", Value::text(name));
    Value::Object(fields)
}

fn new_document(version: u32, build: u32, root: Value, files: Vec<Value>, name: &str) -> (result:
    Value)
    ensures
        forall|header: cr2w::HeaderModel|
            header.version == version && header.build_version == build ==> result@ == document(
                name@,
                #[trigger] document_data(header, root@, value::models(files@)),
            ),
{
    proof {
        value::lemma_models(files@);
    }
    let mut data: Vec<(String, Value)> = Vec::new();
    set_entry(&mut data, "Version", Value::integer(version as i128));
    set_entry(&mut data, "BuildVersion", Value::integer(build as i128));
    set_entry(&mut data, "RootChunk", root);
    if files.len() > 0 {
        set_entry(&mut data, "EmbeddedFiles", Value::Array(files));
    }
    let mut fields: Vec<(String, Value)> = Vec::new();
    set_entry(&mut fields, "Header", new_document_header(name));
    set_entry(&mut fields, "Data", Value::Object(data));
    Value::Object(fields)
}

fn embedded_chunks(file: &Cr2wInspection) -> (result: Vec<usize>)
    ensures
        codec_handles::chunk_indices(result@) == chunks(file@.embedded),
{
    let mut list: Vec<usize> = Vec::new();
    let mut i: usize = 0;
    while i < file.embedded.len()
        invariant
            i <= file.embedded@.len(),
            list@.len() == i,
            forall|k: int|
                0 <= k < i ==> #[trigger] list@[k] == file.embedded@[k].chunk_index,
        decreases file.embedded@.len() - i,
    {
        list.push(file.embedded[i].chunk_index as usize);
        i = i + 1;
    }
    assert(codec_handles::chunk_indices(list@) =~= chunks(file@.embedded));
    list
}

#[verifier::loop_isolation(false)]
fn expand_embedded(
    file: &Cr2wInspection,
    exports: &Vec<Value>,
    ids: &Vec<Option<usize>>,
    visited: &mut Vec<bool>,
) -> (result: Result<Vec<Value>, CodecError>)
    requires
        forall|k: int|
            0 <= k < file.embedded@.len() ==> #[trigger] file.embedded@[k].chunk_index
                < exports@.len(),
    ensures
        match embedded_files(
            file@.embedded,
            value::models(exports@),
            codec_handles::id_numbers(ids@),
            old(visited)@,
            file@.embedded.len(),
        ) {
            Ok((files, after)) => result matches Ok(r) && value::models(r@) == files
                && final(visited)@ == after,
            Err(f) => result matches Err(e) && e@ == f,
        },
{
    let ghost all = value::models(exports@);
    let ghost numbers = codec_handles::id_numbers(ids@);
    let ghost before = visited@;
    let ghost embedded = file@.embedded;
    proof {
        value::lemma_models(exports@);
    }
    let mut files: Vec<Value> = Vec::new();
    let mut i: usize = 0;
    while i < file.embedded.len()
        invariant
            i <= file.embedded@.len(),
            embedded_files(embedded, all, numbers, before, i as nat) == Ok::<
                (Seq<value::Model>, Seq<bool>),
                Fault,
            >((value::models(files@), visited@)),
        decreases file.embedded@.len() - i,
    {
        assert(embedded[i as int] == file.embedded@[i as int]@);
        let at: usize = file.embedded[i].chunk_index as usize;
        match expand_handles(&exports[at], exports, ids, visited) {
            Err(error) => {
                proof {
                    lemma_embedded_files_fail(
                        embedded,
                        all,
                        numbers,
                        before,
                        (i + 1) as nat,
                        embedded.len(),
                    );
                }
                return Err(error);
            },
            Ok(content) => {
                let item: Value = new_embedded_file(file.embedded[i].depot_path.as_str(), content);
                proof {
                    value::lemma_models_push(files@, item);
                }
                files.push(item);
            },
        }
        i = i + 1;
    }
    Ok(files)
}

fn expand_document(
    file: &Cr2wInspection,
    exports: &Vec<Value>,
    order: Option<&Vec<(String, RedClass)>>,
    name: &str,
) -> (result: Result<Value, CodecError>)
    ensures
        match expanded_document(
            file@,
            value::models(exports@),
            codec_handles::class_models(order),
            name@,
        ) {
            Ok(m) => result matches Ok(r) && r@ == m,
            Err(f) => result matches Err(e) && e@ == f,
        },
{
    proof {
        value::lemma_models(exports@);
    }
    let places: Vec<usize> = embedded_chunks(file);
    let ids: Vec<Option<usize>> = match reachable_handle_ids(exports, &places, order) {
        Ok(ids) => ids,
        Err(error) => return Err(error),
    };
    assert forall|k: int| 0 <= k < file.embedded@.len() implies #[trigger] file.embedded@[k].chunk_index
        < exports@.len() by {
        assert(chunks(file@.embedded)[k] == file.embedded@[k].chunk_index);
    }
    let mut visited: Vec<bool> = Vec::new();
    let mut n: usize = 0;
    while n < exports.len()
        invariant
            n <= exports@.len(),
            visited@ == Seq::new(n as nat, |i: int| false),
        decreases exports@.len() - n,
    {
        visited.push(false);
        assert(visited@ =~= Seq::new((n + 1) as nat, |i: int| false));
        n = n + 1;
    }
    let root: Value = match expand_handles(&exports[0], exports, &ids, &mut visited) {
        Ok(root) => root,
        Err(error) => return Err(error),
    };
    let files: Vec<Value> = match expand_embedded(file, exports, &ids, &mut visited) {
        Ok(files) => files,
        Err(error) => return Err(error),
    };
    let ghost data = document_data(file@.header, root@, value::models(files@));
    Ok(new_document(file.header.version, file.header.build_version, root, files, name))
}

fn decode_document(
    bytes: &[u8],
    classes: &Vec<String>,
    enums: Option<&Vec<String>>,
    bitfields: Option<&Vec<String>>,
    unpacked: &Vec<Option<Vec<u8>>>,
    order: Option<&Vec<(String, RedClass)>>,
    name: &str,
) -> (result: Result<Value, CodecError>)
    requires
        enums is Some <==> bitfields is Some,
    ensures
        match document_of(
            bytes@,
            entries::name_keys(classes@),
            kinds_of(enums, bitfields),
            codec_reader::buffer_contents(unpacked@),
            codec_handles::class_models(order),
            name@,
        ) {
            Ok(m) => result matches Ok(r) && r@ == m,
            Err(f) => result matches Err(e) && e@ == f,
        },
{
    let file: Cr2wInspection = match inspect(bytes) {
        Ok(file) => file,
        Err(error) => return Err(CodecError::Cr2w(error)),
    };
    let decoder: Decoder<'_> = Decoder { bytes, file: &file, classes, enums, bitfields, unpacked };
    assert(decoder@ == resource(
        bytes@,
        file@,
        entries::name_keys(classes@),
        kinds_of(enums, bitfields),
        codec_reader::buffer_contents(unpacked@),
    ));
    let exports: Vec<Value> = match read_exports(&decoder) {
        Ok(exports) => exports,
        Err(error) => return Err(error),
    };
    expand_document(&file, &exports, order, name)
}

/// Decodes a resource into a document in which each value stands where it is
/// first referred to.
pub fn decode_wkit(
    bytes: &[u8],
    classes: &Vec<String>,
    unpacked: &Vec<Option<Vec<u8>>>,
    name: &str,
) -> (result: Result<Value, CodecError>)
    ensures
        match document_of(
            bytes@,
            entries::name_keys(classes@),
            None,
            codec_reader::buffer_contents(unpacked@),
            None,
            name@,
        ) {
            Ok(m) => result matches Ok(r) && r@ == m,
            Err(f) => result matches Err(e) && e@ == f,
        },
{
    decode_document(bytes, classes, None, None, unpacked, None, name)
}

/// Decodes a resource into a document, giving identities in the order of the
/// classes' properties.
pub fn decode_wkit_with_schema(
    bytes: &[u8],
    classes: &Vec<(String, RedClass)>,
    unpacked: &Vec<Option<Vec<u8>>>,
    name: &str,
) -> (result: Result<Value, CodecError>)
    ensures
        match document_of(
            bytes@,
            entries::keyed(classes@).map_values(|class: (Seq<char>, ClassModel)| (class.0, ())),
            None,
            codec_reader::buffer_contents(unpacked@),
            Some(entries::keyed(classes@)),
            name@,
        ) {
            Ok(m) => result matches Ok(r) && r@ == m,
            Err(f) => result matches Err(e) && e@ == f,
        },
{
    let ghost wanted = entries::keyed(classes@).map_values(
        |class: (Seq<char>, ClassModel)| (class.0, ()),
    );
    let mut names: Vec<String> = Vec::new();
    let mut i: usize = 0;
    while i < classes.len()
        invariant
            i <= classes@.len(),
            names@.len() == i,
            forall|k: int| 0 <= k < i ==> (#[trigger] names@[k])@ == classes@[k].0@,
        decreases classes@.len() - i,
    {
        names.push(copy_text(classes[i].0.as_str()));
        i = i + 1;
    }
    assert(entries::name_keys(names@) =~= wanted);
    decode_document(bytes, &names, None, None, unpacked, Some(classes), name)
}

/// Decodes a resource into a document with official type information.
pub fn decode_wkit_with_red_schema(
    bytes: &[u8],
    schema: &RedSchema,
    unpacked: &Vec<Option<Vec<u8>>>,
    name: &str,
) -> (result: Result<Value, CodecError>)
    ensures
        match document_of(
            bytes@,
            schema::class_keys(schema@.classes, schema@.aliases),
            Some((schema@.enums, schema@.bitfields)),
            codec_reader::buffer_contents(unpacked@),
            Some(schema@.classes),
            name@,
        ) {
            Ok(m) => result matches Ok(r) && r@ == m,
            Err(f) => result matches Err(e) && e@ == f,
        },
{
    let classes: Vec<String> = schema.class_names();
    decode_document(
        bytes,
        &classes,
        Some(&schema.enums),
        Some(&schema.bitfields),
        unpacked,
        Some(&schema.classes),
        name,
    )
}

} // verus!
