//! What the document of a resource holds, and how handles are written in it.

use crate::codec;
use crate::codec_document;
use crate::codec_handles;
use crate::codec_handles::Choice;
use crate::codec_leaf_laws;
use crate::codec_leaf_laws::{is_stored, whole};
use crate::codec_reader::{Fault, Resource};
use crate::cr2w;
use crate::entries;
use crate::number_text;
use crate::object_laws;
use crate::object_laws::{has_fields, said};
use crate::schema::ClassModel;
use crate::value;
use vstd::prelude::*;

verus! {

// ---------------------------------------------------------------------------
// Exports
// ---------------------------------------------------------------------------

proof fn lemma_values(r: Resource, n: nat, i: nat)
    requires
        i < n,
        codec_document::export_values(r, n) is Ok,
    ensures
        codec_document::export_values(r, n)->Ok_0.len() == n,
        codec_document::export_value(r, i) == Ok::<value::Model, Fault>(
            codec_document::export_values(r, n)->Ok_0[i as int],
        ),
    decreases n,
{
    lemma_count(r, (n - 1) as nat);
    if i < n - 1 {
        lemma_values(r, (n - 1) as nat, i);
    }
}

proof fn lemma_count(r: Resource, n: nat)
    ensures
        codec_document::export_values(r, n) is Ok ==> codec_document::export_values(
            r,
            n,
        )->Ok_0.len() == n,
    decreases n,
{
    if n > 0 {
        lemma_count(r, (n - 1) as nat);
    }
}

/// Each export is listed with its place, its class, and the value of that class in the
/// bytes from its offset on, which it takes up to the last.
pub proof fn law_export_listed(r: Resource, i: nat)
    requires
        codec_document::export_list(r) is Ok,
        i < r.file.exports.len(),
    ensures
        ({
            let export = r.file.exports[i as int];
            let read = codec::class_at(
                r,
                export.class_name,
                export.data_offset as nat,
                export.data_size as nat,
            );
            &&& read is Ok
            &&& read->Ok_0.1 == export.data_offset + export.data_size
            &&& value::member(codec_document::export_list(r)->Ok_0, "exports"@) matches Some(
                value::Model::Array(items),
            ) && items.len() == r.file.exports.len() && has_fields(
                items[i as int],
                seq![
                    ("index"@, whole(i as int)),
                    ("$type"@, said(export.class_name)),
                    ("value"@, read->Ok_0.0),
                ],
            )
        }),
{
    let n = r.file.exports.len();
    lemma_values(r, n, i);
    let values = codec_document::export_values(r, n)->Ok_0;
    let export = r.file.exports[i as int];
    reveal_strlit("index");
    reveal_strlit("$type");
    reveal_strlit("value");
    assert("index"@.len() == 5 && "$type"@.len() == 5 && "value"@.len() == 5);
    assert("index"@[0] == 'i' && "$type"@[0] == '$' && "value"@[0] == 'v');
    codec_leaf_laws::lemma_triple(
        "index"@,
        whole(i as int),
        "$type"@,
        said(export.class_name),
        "value"@,
        values[i as int],
    );
    let items = value::Model::Array(
        Seq::new(
            values.len(),
            |k: int|
                codec_document::export_item(k as nat, r.file.exports[k].class_name, values[k]),
        ),
    );
    entries::law_find_put(Seq::<(Seq<char>, value::Model)>::empty(), "exports"@, items);
}

// ---------------------------------------------------------------------------
// Handles
// ---------------------------------------------------------------------------

/// A handle to an export.
pub open spec fn handle_to(index: nat) -> value::Model {
    value::Model::Object(seq![("$handle"@, whole(index as int))])
}

/// A handle is written with what it leads to the first time, and by its identity from
/// then on.
pub proof fn law_handle_written(
    index: nat,
    exports: Seq<value::Model>,
    ids: Seq<Option<nat>>,
    visited: Seq<bool>,
    depth: nat,
    id: nat,
)
    requires
        index < exports.len(),
        index < ids.len(),
        index < visited.len(),
        index != 0xffff_ffff,
        index <= usize::MAX,
        ids[index as int] == Some(id),
        depth > 0,
    ensures
        ({
            let written = codec_handles::expanded(handle_to(index), exports, ids, visited, depth);
            let inner = codec_handles::expanded(
                exports[index as int],
                exports,
                ids,
                visited.update(index as int, true),
                (depth - 1) as nat,
            );
            &&& visited[index as int] ==> (written matches Ok((m, after)) && after == visited
                && has_fields(m, seq![("HandleRefId"@, said(number_text::decimal(id)))]))
            &&& !visited[index as int] && inner is Ok ==> (written matches Ok((m, after)) && after
                == inner->Ok_0.1 && has_fields(
                m,
                seq![
                    ("HandleId"@, said(number_text::decimal(id))),
                    ("Data"@, inner->Ok_0.0),
                ],
            ))
            &&& !visited[index as int] && inner is Err ==> written is Err
        }),
{
    let fields = seq![("$handle"@, whole(index as int))];
    assert(fields[0].0 == "$handle"@);
    assert(entries::find(fields, "$handle"@) == Some(whole(index as int)));
    assert(codec_handles::target(fields) == Some(index));
    let none = Seq::<(Seq<char>, value::Model)>::empty();
    let text = said(number_text::decimal(id));
    object_laws::lemma_none::<value::Model>();
    object_laws::lemma_with(none, none, "HandleRefId"@, text);
    assert(none.push(("HandleRefId"@, text)) =~= seq![("HandleRefId"@, text)]);
    reveal_strlit("HandleId");
    reveal_strlit("Data");
    assert("HandleId"@.len() == 8 && "Data"@.len() == 4);
    let inner = codec_handles::expanded(
        exports[index as int],
        exports,
        ids,
        visited.update(index as int, true),
        (depth - 1) as nat,
    );
    if inner is Ok {
        codec_leaf_laws::lemma_pair("HandleId"@, text, "Data"@, inner->Ok_0.0);
    }
}

/// Whether a value holds no handles.
pub open spec fn is_plain(m: value::Model) -> bool
    decreases m,
{
    match m {
        value::Model::Array(items) => forall|i: int|
            #![trigger items[i]]
            0 <= i < items.len() ==> is_plain(items[i]),
        value::Model::Object(fields) => {
            &&& !(fields.len() == 1 && fields[0].0 == "$handle"@)
            &&& forall|i: int|
                #![trigger fields[i]]
                0 <= i < fields.len() ==> is_plain(fields[i].1)
        },
        _ => true,
    }
}

/// A value without handles is written as it is.
pub proof fn law_plain_written(
    m: value::Model,
    exports: Seq<value::Model>,
    ids: Seq<Option<nat>>,
    visited: Seq<bool>,
    depth: nat,
)
    requires
        is_plain(m),
    ensures
        codec_handles::expanded(m, exports, ids, visited, depth) == Ok::<
            (value::Model, Seq<bool>),
            Fault,
        >((m, visited)),
    decreases m, 1nat,
{
    match m {
        value::Model::Array(items) => {
            lemma_plain_items(items, exports, ids, visited, depth);
        },
        value::Model::Object(fields) => {
            lemma_plain_entries(fields, exports, ids, visited, depth);
        },
        _ => {},
    }
}

proof fn lemma_plain_items(
    items: Seq<value::Model>,
    exports: Seq<value::Model>,
    ids: Seq<Option<nat>>,
    visited: Seq<bool>,
    depth: nat,
)
    requires
        forall|i: int| #![trigger items[i]] 0 <= i < items.len() ==> is_plain(items[i]),
    ensures
        codec_handles::expanded_items(items, exports, ids, visited, depth) == Ok::<
            (Seq<value::Model>, Seq<bool>),
            Fault,
        >((items, visited)),
    decreases items, 0nat,
{
    if items.len() == 0 {
        assert(items =~= Seq::<value::Model>::empty());
    } else {
        let front = items.drop_last();
        assert forall|i: int| #![trigger front[i]] 0 <= i < front.len() implies is_plain(
            front[i],
        ) by {
            assert(is_plain(items[i]));
        }
        lemma_plain_items(front, exports, ids, visited, depth);
        assert(is_plain(items[items.len() - 1]));
        law_plain_written(items.last(), exports, ids, visited, depth);
        assert(front.push(items.last()) =~= items);
    }
}

proof fn lemma_plain_entries(
    fields: Seq<(Seq<char>, value::Model)>,
    exports: Seq<value::Model>,
    ids: Seq<Option<nat>>,
    visited: Seq<bool>,
    depth: nat,
)
    requires
        forall|i: int| #![trigger fields[i]] 0 <= i < fields.len() ==> is_plain(fields[i].1),
    ensures
        codec_handles::expanded_entries(fields, exports, ids, visited, depth) == Ok::<
            (Seq<(Seq<char>, value::Model)>, Seq<bool>),
            Fault,
        >((fields, visited)),
    decreases fields, 0nat,
{
    if fields.len() == 0 {
        assert(fields =~= Seq::<(Seq<char>, value::Model)>::empty());
    } else {
        let front = fields.drop_last();
        assert forall|i: int| #![trigger front[i]] 0 <= i < front.len() implies is_plain(
            front[i].1,
        ) by {
            assert(is_plain(fields[i].1));
        }
        lemma_plain_entries(front, exports, ids, visited, depth);
        let last = fields[fields.len() - 1];
        assert(is_plain(last.1));
        law_plain_written(fields.last().1, exports, ids, visited, depth);
        assert(front.push((fields.last().0, fields.last().1)) =~= fields);
    }
}

// ---------------------------------------------------------------------------
// Identities
// ---------------------------------------------------------------------------

/// Whether identities are the numbers below a limit, each given once.
pub open spec fn numbered(ids: Seq<Option<nat>>, limit: nat) -> bool {
    &&& forall|i: int|
        #![trigger ids[i]]
        0 <= i < ids.len() && ids[i] is Some ==> ids[i]->0 < limit
    &&& forall|i: int, j: int|
        #![trigger ids[i], ids[j]]
        0 <= i < j < ids.len() && ids[i] is Some && ids[j] is Some ==> ids[i] != ids[j]
    &&& forall|k: nat| k < limit ==> #[trigger] ids.contains(Some(k))
}

proof fn lemma_next(ids: Seq<Option<nat>>, index: nat, next: nat)
    requires
        numbered(ids, next),
        index < ids.len(),
        ids[index as int] is None,
    ensures
        numbered(ids.update(index as int, Some(next)), next + 1),
{
    let after = ids.update(index as int, Some(next));
    assert forall|k: nat| k < next + 1 implies #[trigger] after.contains(Some(k)) by {
        if k < next {
            assert(ids.contains(Some(k)));
            let i = choose|i: int| 0 <= i < ids.len() && ids[i] == Some(k);
            assert(after[i] == Some(k));
        } else {
            assert(after[index as int] == Some(k));
        }
    }
    assert forall|i: int, j: int|
        #![trigger after[i], after[j]]
        0 <= i < j < after.len() && after[i] is Some && after[j] is Some implies after[i]
        != after[j] by {
        if i != index && j != index {
            assert(ids[i] != ids[j]);
        } else if i == index {
            assert(ids[j]->0 < next);
        } else {
            assert(ids[i]->0 < next);
        }
    }
}

proof fn lemma_assigned(
    m: value::Model,
    exports: Seq<value::Model>,
    classes: Option<Seq<(Seq<char>, ClassModel)>>,
    ids: Seq<Option<nat>>,
    next: nat,
    depth: nat,
)
    requires
        numbered(ids, next),
    ensures
        codec_handles::assigned(m, exports, classes, ids, next, depth) matches Ok((after, count))
            ==> numbered(after, count) && after.len() == ids.len(),
    decreases depth, m, 1nat,
{
    match m {
        value::Model::Array(items) => {
            lemma_assigned_items(items, exports, classes, ids, next, depth);
        },
        value::Model::Object(fields) => {
            if codec_handles::is_handle(fields) {
                if let Some(index) = codec_handles::target(fields) {
                    if index != 0xffff_ffff && index < ids.len() && ids[index as int] is None
                        && index < exports.len() && depth > 0 && next < usize::MAX {
                        lemma_next(ids, index, next);
                        lemma_assigned(
                            exports[index as int],
                            exports,
                            classes,
                            ids.update(index as int, Some(next)),
                            next + 1,
                            (depth - 1) as nat,
                        );
                    }
                }
            } else {
                match (classes, codec_handles::object_type(fields)) {
                    (Some(list), Some(t)) => {
                        let names = codec_handles::chain_names(list, t, Seq::empty());
                        lemma_assigned_entries(
                            fields,
                            Choice::Named(names),
                            exports,
                            classes,
                            ids,
                            next,
                            depth,
                        );
                        if let Ok((after, count)) = codec_handles::assigned_entries(
                            fields,
                            Choice::Named(names),
                            exports,
                            classes,
                            ids,
                            next,
                            depth,
                        ) {
                            lemma_assigned_entries(
                                fields,
                                Choice::Unnamed(names),
                                exports,
                                classes,
                                after,
                                count,
                                depth,
                            );
                        }
                    },
                    _ => {
                        lemma_assigned_entries(
                            fields,
                            Choice::All,
                            exports,
                            classes,
                            ids,
                            next,
                            depth,
                        );
                    },
                }
            }
        },
        _ => {},
    }
}

proof fn lemma_assigned_items(
    items: Seq<value::Model>,
    exports: Seq<value::Model>,
    classes: Option<Seq<(Seq<char>, ClassModel)>>,
    ids: Seq<Option<nat>>,
    next: nat,
    depth: nat,
)
    requires
        numbered(ids, next),
    ensures
        codec_handles::assigned_items(items, exports, classes, ids, next, depth) matches Ok(
            (after, count),
        ) ==> numbered(after, count) && after.len() == ids.len(),
    decreases depth, items, 0nat,
{
    if items.len() > 0 {
        lemma_assigned_items(items.drop_last(), exports, classes, ids, next, depth);
        if let Ok((after, count)) = codec_handles::assigned_items(
            items.drop_last(),
            exports,
            classes,
            ids,
            next,
            depth,
        ) {
            lemma_assigned(items.last(), exports, classes, after, count, depth);
        }
    }
}

proof fn lemma_assigned_entries(
    fields: Seq<(Seq<char>, value::Model)>,
    choice: Choice,
    exports: Seq<value::Model>,
    classes: Option<Seq<(Seq<char>, ClassModel)>>,
    ids: Seq<Option<nat>>,
    next: nat,
    depth: nat,
)
    requires
        numbered(ids, next),
    ensures
        codec_handles::assigned_entries(
            fields,
            choice,
            exports,
            classes,
            ids,
            next,
            depth,
        ) matches Ok((after, count)) ==> numbered(after, count) && after.len() == ids.len(),
    decreases depth, fields, 0nat,
{
    if fields.len() > 0 {
        lemma_assigned_entries(fields.drop_last(), choice, exports, classes, ids, next, depth);
        if let Ok((after, count)) = codec_handles::assigned_entries(
            fields.drop_last(),
            choice,
            exports,
            classes,
            ids,
            next,
            depth,
        ) {
            if codec_handles::chosen(choice, fields.last().0) {
                lemma_assigned(fields.last().1, exports, classes, after, count, depth);
            }
        }
    }
}

/// The identities of exports are the numbers from zero on, each given to one export.
pub proof fn law_identities(
    exports: Seq<value::Model>,
    embedded: Seq<nat>,
    classes: Option<Seq<(Seq<char>, ClassModel)>>,
) -> (limit: nat)
    requires
        codec_handles::handle_ids(exports, embedded, classes) is Ok,
    ensures
        codec_handles::handle_ids(exports, embedded, classes)->Ok_0.len() == exports.len(),
        numbered(codec_handles::handle_ids(exports, embedded, classes)->Ok_0, limit),
{
    let none = Seq::new(exports.len(), |i: int| None::<nat>);
    let list = codec_handles::walked(exports, embedded, embedded.len());
    lemma_assigned_items(list, exports, classes, none, 0, exports.len());
    codec_handles::assigned_items(list, exports, classes, none, 0, exports.len())->Ok_0.1
}

// ---------------------------------------------------------------------------
// Documents
// ---------------------------------------------------------------------------

/// The body of a document has the versions of the resource, its first export and, where
/// there are any, its embedded files.
pub proof fn law_document_data(
    header: cr2w::HeaderModel,
    root: value::Model,
    files: Seq<value::Model>,
)
    ensures
        ({
            let list = seq![
                ("Version"@, whole(header.version as int)),
                ("BuildVersion"@, whole(header.build_version as int)),
                ("RootChunk"@, root),
            ];
            has_fields(
                codec_document::document_data(header, root, files),
                if files.len() == 0 {
                    list
                } else {
                    list.push(("EmbeddedFiles"@, value::Model::Array(files)))
                },
            )
        }),
{
    reveal_strlit("Version");
    reveal_strlit("BuildVersion");
    reveal_strlit("RootChunk");
    reveal_strlit("EmbeddedFiles");
    assert("Version"@.len() == 7 && "BuildVersion"@.len() == 12 && "RootChunk"@.len() == 9
        && "EmbeddedFiles"@.len() == 13);
    let list = seq![
        ("Version"@, whole(header.version as int)),
        ("BuildVersion"@, whole(header.build_version as int)),
        ("RootChunk"@, root),
    ];
    codec_leaf_laws::lemma_triple(
        "Version"@,
        whole(header.version as int),
        "BuildVersion"@,
        whole(header.build_version as int),
        "RootChunk"@,
        root,
    );
    let data = codec_document::document_data(header, root, Seq::empty())->Object_0;
    object_laws::lemma_with(data, list, "EmbeddedFiles"@, value::Model::Array(files));
}

/// An embedded file has the path of its import, and the export that it names.
pub proof fn law_embedded_written(
    embedded: Seq<cr2w::EmbeddedModel>,
    exports: Seq<value::Model>,
    ids: Seq<Option<nat>>,
    visited: Seq<bool>,
    i: nat,
    n: nat,
) -> (r: (value::Model, Seq<bool>, Seq<bool>))
    requires
        i < n <= embedded.len(),
        codec_document::embedded_files(embedded, exports, ids, visited, n) is Ok,
    ensures
        ({
            let (files, last) = codec_document::embedded_files(
                embedded,
                exports,
                ids,
                visited,
                n,
            )->Ok_0;
            let (name, before, after) = r;
            let content = codec_handles::expanded(
                exports[embedded[i as int].chunk_index as int],
                exports,
                ids,
                before,
                exports.len(),
            );
            &&& files.len() == n
            &&& content is Ok
            &&& content->Ok_0.1 == after
            &&& is_stored(name, "ResourcePath"@, "string"@, embedded[i as int].depot_path)
            &&& has_fields(
                files[i as int],
                seq![("FileName"@, name), ("Content"@, content->Ok_0.0)],
            )
        }),
    decreases n,
{
    let k = (n - 1) as nat;
    lemma_files(embedded, exports, ids, visited, k);
    if i < k {
        law_embedded_written(embedded, exports, ids, visited, i, k)
    } else {
        let (files, before) = codec_document::embedded_files(
            embedded,
            exports,
            ids,
            visited,
            k,
        )->Ok_0;
        let path = embedded[i as int].depot_path;
        let name = crate::redpackage_reader::stored_text("ResourcePath"@, path);
        codec_leaf_laws::lemma_stored("ResourcePath"@, "string"@, path);
        let content = codec_handles::expanded(
            exports[embedded[i as int].chunk_index as int],
            exports,
            ids,
            before,
            exports.len(),
        );
        reveal_strlit("FileName");
        reveal_strlit("Content");
        assert("FileName"@.len() == 8 && "Content"@.len() == 7);
        codec_leaf_laws::lemma_pair("FileName"@, name, "Content"@, content->Ok_0.0);
        (name, before, content->Ok_0.1)
    }
}

proof fn lemma_files(
    embedded: Seq<cr2w::EmbeddedModel>,
    exports: Seq<value::Model>,
    ids: Seq<Option<nat>>,
    visited: Seq<bool>,
    n: nat,
)
    ensures
        codec_document::embedded_files(embedded, exports, ids, visited, n) matches Ok((files, _))
            ==> files.len() == n,
    decreases n,
{
    if n > 0 {
        lemma_files(embedded, exports, ids, visited, (n - 1) as nat);
    }
}

} // verus!
