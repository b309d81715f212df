//! Where the tables of a resource have their items.

use crate::archive;
use crate::codec_leaf_laws;
use crate::codec_leaf_laws::{eight, four, two};
use crate::cr2w;
use crate::cr2w::{
    Cr2wBuffer, Cr2wTable, EmbeddedModel, ExportModel, HeaderModel, ImportModel, NameModel,
    StringModel,
};
use vstd::prelude::*;
use vstd::utf8;

verus! {

/// Whether a header is that of a file: its numbers behind the four letters of the format,
/// and from byte 40 on ten tables of twelve bytes.
pub open spec fn is_header(b: Seq<u8>, h: HeaderModel) -> bool {
    &&& b.len() >= 160
    &&& b[0] == 'C' as u8 && b[1] == 'R' as u8 && b[2] == '2' as u8 && b[3] == 'W' as u8
    &&& h.version == four(b, 4)
    &&& h.flags == four(b, 8)
    &&& h.timestamp == eight(b, 12)
    &&& h.build_version == four(b, 20)
    &&& h.objects_end == four(b, 24)
    &&& h.buffers_end == four(b, 28)
    &&& h.crc32 == four(b, 32)
    &&& h.chunk_count == four(b, 36)
    &&& h.tables.len() == 10
    &&& forall|i: nat|
        i < 10 ==> {
            let t = #[trigger] h.tables[i as int];
            &&& t.offset == four(b, 40 + 12 * i)
            &&& t.item_count == four(b, 44 + 12 * i)
            &&& t.crc32 == four(b, 48 + 12 * i)
            &&& t.offset <= b.len()
        }
}

/// Whether a text is the one between two places: it ends before a zero or at a limit. An
/// empty one stands for `None`.
pub open spec fn text_between(
    b: Seq<u8>,
    from: int,
    end: int,
    limit: int,
    value: Seq<char>,
) -> bool {
    &&& from <= end <= limit <= b.len()
    &&& end == limit || b[end] == 0
    &&& forall|k: int| from <= k < end ==> #[trigger] b[k] != 0
    &&& utf8::valid_utf8(b.subrange(from, end))
    &&& value == if from == end {
        "None"@
    } else {
        utf8::decode_utf8(b.subrange(from, end))
    }
}

/// Whether a text stands at an offset of the table of strings.
pub open spec fn text_at(b: Seq<u8>, table: Cr2wTable, offset: nat, value: Seq<char>) -> bool {
    exists|end: int| #[trigger]
        text_between(b, table.offset + offset, end, table.offset + table.item_count, value)
}

/// Whether a name stands at a place: the offset of its text and its hash.
pub open spec fn is_name(b: Seq<u8>, strings: Cr2wTable, at: nat, name: NameModel) -> bool {
    &&& at + 8 <= b.len()
    &&& text_at(b, strings, four(b, at), name.value)
    &&& name.hash == four(b, at + 4)
}

/// Whether an import stands at a place: the offset of its path, the index of its class
/// and its flags.
pub open spec fn is_import(
    b: Seq<u8>,
    strings: Cr2wTable,
    names: Seq<NameModel>,
    at: nat,
    import: ImportModel,
) -> bool {
    &&& at + 8 <= b.len()
    &&& text_at(b, strings, four(b, at), import.depot_path)
    &&& two(b, at + 4) < names.len()
    &&& import.class_name == names[two(b, at + 4) as int].value
    &&& import.flags == two(b, at + 6)
}

/// Whether an export stands at a place.
pub open spec fn is_export(
    b: Seq<u8>,
    names: Seq<NameModel>,
    at: nat,
    export: ExportModel,
) -> bool {
    &&& at + 24 <= b.len()
    &&& two(b, at) < names.len()
    &&& export.class_name == names[two(b, at) as int].value
    &&& export.object_flags == two(b, at + 2)
    &&& export.parent_id == four(b, at + 4)
    &&& export.data_size == four(b, at + 8)
    &&& export.data_offset == four(b, at + 12)
    &&& export.template == four(b, at + 16)
    &&& export.crc32 == four(b, at + 20)
}

/// Whether a buffer stands at a place.
pub open spec fn is_buffer(b: Seq<u8>, at: nat, buffer: Cr2wBuffer) -> bool {
    &&& at + 24 <= b.len()
    &&& buffer.flags == four(b, at)
    &&& buffer.index == four(b, at + 4)
    &&& buffer.offset == four(b, at + 8)
    &&& buffer.disk_size == four(b, at + 12)
    &&& buffer.memory_size == four(b, at + 16)
    &&& buffer.crc32 == four(b, at + 20)
}

/// Whether an embedded file stands at a place. Its path is that of its import, counted
/// from one.
pub open spec fn is_embedded(
    b: Seq<u8>,
    imports: Seq<ImportModel>,
    at: nat,
    embedded: EmbeddedModel,
) -> bool {
    &&& at + 16 <= b.len()
    &&& embedded.import_index == four(b, at)
    &&& embedded.chunk_index == four(b, at + 4)
    &&& embedded.path_hash == eight(b, at + 8)
    &&& 1 <= embedded.import_index <= imports.len()
    &&& embedded.depot_path == imports[embedded.import_index - 1].depot_path
}

proof fn lemma_field(b: Seq<u8>, at: nat)
    ensures
        at + 2 <= b.len() ==> cr2w::field(b, at, 2) == two(b, at) && two(b, at) <= 0xffff,
        at + 4 <= b.len() ==> cr2w::field(b, at, 4) == four(b, at) && four(b, at) <= 0xffff_ffff,
        at + 8 <= b.len() ==> cr2w::field(b, at, 8) == eight(b, at) && eight(b, at)
            <= 0xffff_ffff_ffff_ffff,
{
    codec_leaf_laws::lemma_numbers(b, at);
}

proof fn lemma_zero(bytes: Seq<u8>, at: nat)
    ensures
        at <= bytes.len() ==> at <= cr2w::string_end(bytes, at) <= bytes.len(),
        cr2w::string_end(bytes, at) < bytes.len() ==> bytes[cr2w::string_end(bytes, at) as int]
            == 0,
        forall|k: int| at <= k < cr2w::string_end(bytes, at) ==> #[trigger] bytes[k] != 0,
    decreases bytes.len() - at,
{
    if at < bytes.len() && bytes[at as int] != 0 {
        lemma_zero(bytes, at + 1);
    }
}

spec fn string_there(part: Seq<u8>, s: StringModel) -> bool {
    exists|end: int| #[trigger]
        text_between(part, s.offset as int, end, part.len() as int, s.value)
}

proof fn lemma_strings(part: Seq<u8>, at: nat, found: Seq<StringModel>)
    requires
        part.len() <= 0xffff_ffff,
        cr2w::strings_from(part, at, found) is Ok,
        forall|i: int| 0 <= i < found.len() ==> string_there(part, #[trigger] found[i]),
    ensures
        ({
            let all = cr2w::strings_from(part, at, found)->Ok_0;
            forall|i: int| 0 <= i < all.len() ==> string_there(part, #[trigger] all[i])
        }),
    decreases part.len() - at,
{
    if at < part.len() {
        let end = cr2w::string_end(part, at);
        let coded = part.subrange(at as int, end as int);
        let value = utf8::decode_utf8(coded);
        let s = StringModel {
            offset: at as u32,
            value: if value.len() == 0 {
                "None"@
            } else {
                value
            },
        };
        lemma_zero(part, at);
        archive::lemma_next_zero(part, at);
        lemma_decoded(coded);
        assert(text_between(part, s.offset as int, end as int, part.len() as int, s.value));
        assert(string_there(part, s));
        if end < part.len() {
            lemma_strings(part, end + 1, found.push(s));
        }
    }
}

/// Bytes give no characters only where there are none.
proof fn lemma_decoded(coded: Seq<u8>)
    requires
        utf8::valid_utf8(coded),
    ensures
        utf8::decode_utf8(coded).len() == 0 <==> coded.len() == 0,
{
    utf8::decode_utf8_encode_utf8(coded);
    if utf8::decode_utf8(coded).len() == 0 {
        assert(utf8::decode_utf8(coded) =~= Seq::<char>::empty());
        assert(utf8::encode_utf8(Seq::<char>::empty()) =~= Seq::<u8>::empty());
    }
}

proof fn lemma_with(strings: Seq<StringModel>, offset: u32, i: nat)
    ensures
        cr2w::string_with(strings, offset, i) matches Some(k) ==> k < strings.len()
            && strings[k as int].offset == offset,
    decreases strings.len() - i,
{
    if i < strings.len() {
        lemma_with(strings, offset, i + 1);
    }
}

/// The texts of the table of strings stand at their offsets.
proof fn lemma_text(b: Seq<u8>, table: Cr2wTable, strings: Seq<StringModel>, offset: u32)
    requires
        cr2w::strings_of(b, table) == Ok::<Seq<StringModel>, cr2w::Cr2wError>(strings),
        cr2w::string_with(strings, offset, 0) is Some,
    ensures
        text_at(
            b,
            table,
            offset as nat,
            strings[cr2w::string_with(strings, offset, 0)->0 as int].value,
        ),
{
    let part = b.subrange(table.offset as int, table.offset + table.item_count);
    lemma_strings(part, 0, seq![]);
    lemma_with(strings, offset, 0);
    let k = cr2w::string_with(strings, offset, 0)->0;
    let s = strings[k as int];
    assert(cr2w::strings_from(part, 0, seq![])->Ok_0 == strings);
    assert(string_there(part, strings[k as int]));
    let end = choose|end: int| #[trigger]
        text_between(part, s.offset as int, end, part.len() as int, s.value);
    let from = table.offset + offset;
    let last = table.offset + end;
    assert(b.subrange(from, last) =~= part.subrange(offset as int, end));
    assert forall|k: int| from <= k < last implies #[trigger] b[k] != 0 by {
        assert(part[k - table.offset] != 0);
    }
    assert(text_between(b, from, last, table.offset + table.item_count, s.value));
}

proof fn lemma_names(
    b: Seq<u8>,
    strings_table: Cr2wTable,
    table: Cr2wTable,
    strings: Seq<StringModel>,
    found: Seq<NameModel>,
)
    requires
        cr2w::strings_of(b, strings_table) == Ok::<Seq<StringModel>, cr2w::Cr2wError>(strings),
        cr2w::names_from(b, table, strings, found) is Ok,
        found.len() <= table.item_count,
        forall|i: nat|
            i < found.len() ==> is_name(
                b,
                strings_table,
                table.offset as nat + 8 * i,
                #[trigger] found[i as int],
            ),
    ensures
        ({
            let all = cr2w::names_from(b, table, strings, found)->Ok_0;
            &&& all.len() == table.item_count
            &&& forall|i: nat|
                i < all.len() ==> is_name(
                    b,
                    strings_table,
                    table.offset as nat + 8 * i,
                    #[trigger] all[i as int],
                )
        }),
    decreases table.item_count - found.len(),
{
    if found.len() < table.item_count {
        let at = table.offset as nat + 8 * found.len();
        lemma_field(b, at);
        lemma_field(b, at + 4);
        let offset = four(b, at) as u32;
        lemma_text(b, strings_table, strings, offset);
        let k = cr2w::string_with(strings, offset, 0)->0;
        let name = NameModel { value: strings[k as int].value, hash: four(b, at + 4) as u32 };
        let more = found.push(name);
        assert forall|i: nat| i < more.len() implies is_name(
            b,
            strings_table,
            table.offset as nat + 8 * i,
            #[trigger] more[i as int],
        ) by {
            if i < found.len() {
                assert(more[i as int] == found[i as int]);
            }
        }
        lemma_names(b, strings_table, table, strings, more);
    }
}

proof fn lemma_imports(
    b: Seq<u8>,
    strings_table: Cr2wTable,
    table: Cr2wTable,
    strings: Seq<StringModel>,
    names: Seq<NameModel>,
    found: Seq<ImportModel>,
)
    requires
        cr2w::strings_of(b, strings_table) == Ok::<Seq<StringModel>, cr2w::Cr2wError>(strings),
        cr2w::imports_from(b, table, strings, names, found) is Ok,
        found.len() <= table.item_count,
        forall|i: nat|
            i < found.len() ==> is_import(
                b,
                strings_table,
                names,
                table.offset as nat + 8 * i,
                #[trigger] found[i as int],
            ),
    ensures
        ({
            let all = cr2w::imports_from(b, table, strings, names, found)->Ok_0;
            &&& all.len() == table.item_count
            &&& forall|i: nat|
                i < all.len() ==> is_import(
                    b,
                    strings_table,
                    names,
                    table.offset as nat + 8 * i,
                    #[trigger] all[i as int],
                )
        }),
    decreases table.item_count - found.len(),
{
    if found.len() < table.item_count {
        let at = table.offset as nat + 8 * found.len();
        lemma_field(b, at);
        lemma_field(b, at + 4);
        lemma_field(b, at + 6);
        let offset = four(b, at) as u32;
        lemma_text(b, strings_table, strings, offset);
        let k = cr2w::string_with(strings, offset, 0)->0;
        let import = ImportModel {
            depot_path: strings[k as int].value,
            class_name: names[two(b, at + 4) as int].value,
            flags: two(b, at + 6) as u16,
        };
        let more = found.push(import);
        assert forall|i: nat| i < more.len() implies is_import(
            b,
            strings_table,
            names,
            table.offset as nat + 8 * i,
            #[trigger] more[i as int],
        ) by {
            if i < found.len() {
                assert(more[i as int] == found[i as int]);
            }
        }
        lemma_imports(b, strings_table, table, strings, names, more);
    }
}

proof fn lemma_exports(
    b: Seq<u8>,
    table: Cr2wTable,
    names: Seq<NameModel>,
    found: Seq<ExportModel>,
)
    requires
        cr2w::exports_from(b, table, names, found) is Ok,
        found.len() <= table.item_count,
        forall|i: nat|
            i < found.len() ==> is_export(
                b,
                names,
                table.offset as nat + 24 * i,
                #[trigger] found[i as int],
            ),
    ensures
        ({
            let all = cr2w::exports_from(b, table, names, found)->Ok_0;
            &&& all.len() == table.item_count
            &&& forall|i: nat|
                i < all.len() ==> is_export(
                    b,
                    names,
                    table.offset as nat + 24 * i,
                    #[trigger] all[i as int],
                )
        }),
    decreases table.item_count - found.len(),
{
    if found.len() < table.item_count {
        let at = table.offset as nat + 24 * found.len();
        lemma_field(b, at);
        lemma_field(b, at + 2);
        lemma_field(b, at + 4);
        lemma_field(b, at + 8);
        lemma_field(b, at + 12);
        lemma_field(b, at + 16);
        lemma_field(b, at + 20);
        let more = found.push(cr2w::export_at(b, at, names));
        assert forall|i: nat| i < more.len() implies is_export(
            b,
            names,
            table.offset as nat + 24 * i,
            #[trigger] more[i as int],
        ) by {
            if i < found.len() {
                assert(more[i as int] == found[i as int]);
            }
        }
        lemma_exports(b, table, names, more);
    }
}

proof fn lemma_embedded(
    b: Seq<u8>,
    table: Cr2wTable,
    imports: Seq<ImportModel>,
    found: Seq<EmbeddedModel>,
)
    requires
        cr2w::embedded_from(b, table, imports, found) is Ok,
        found.len() <= table.item_count,
        forall|i: nat|
            i < found.len() ==> is_embedded(
                b,
                imports,
                table.offset as nat + 16 * i,
                #[trigger] found[i as int],
            ),
    ensures
        ({
            let all = cr2w::embedded_from(b, table, imports, found)->Ok_0;
            &&& all.len() == table.item_count
            &&& forall|i: nat|
                i < all.len() ==> is_embedded(
                    b,
                    imports,
                    table.offset as nat + 16 * i,
                    #[trigger] all[i as int],
                )
        }),
    decreases table.item_count - found.len(),
{
    if found.len() < table.item_count {
        let at = table.offset as nat + 16 * found.len();
        lemma_field(b, at);
        lemma_field(b, at + 4);
        lemma_field(b, at + 8);
        let embedded = EmbeddedModel {
            import_index: four(b, at) as u32,
            chunk_index: four(b, at + 4) as u32,
            path_hash: eight(b, at + 8) as u64,
            depot_path: imports[four(b, at) - 1].depot_path,
        };
        let more = found.push(embedded);
        assert forall|i: nat| i < more.len() implies is_embedded(
            b,
            imports,
            table.offset as nat + 16 * i,
            #[trigger] more[i as int],
        ) by {
            if i < found.len() {
                assert(more[i as int] == found[i as int]);
            }
        }
        lemma_embedded(b, table, imports, more);
    }
}

proof fn lemma_magic(b: Seq<u8>)
    requires
        b.len() >= 4,
        cr2w::field(b, 0, 4) == cr2w::CR2W_MAGIC,
    ensures
        b[0] == 'C' as u8 && b[1] == 'R' as u8 && b[2] == '2' as u8 && b[3] == 'W' as u8,
{
    lemma_field(b, 0);
    assert(two(b, 0) <= 0xffff);
}

proof fn lemma_table(b: Seq<u8>, i: nat)
    requires
        b.len() >= 160,
        i < 10,
    ensures
        ({
            let t = cr2w::table_at(b, 40 + 12 * i);
            &&& t.offset == four(b, 40 + 12 * i)
            &&& t.item_count == four(b, 44 + 12 * i)
            &&& t.crc32 == four(b, 48 + 12 * i)
        }),
{
    lemma_field(b, 40 + 12 * i);
    lemma_field(b, 44 + 12 * i);
    lemma_field(b, 48 + 12 * i);
}

proof fn lemma_numbers(b: Seq<u8>)
    requires
        b.len() >= 160,
    ensures
        ({
            let h = cr2w::header_of(b);
            &&& h.version == four(b, 4)
            &&& h.flags == four(b, 8)
            &&& h.timestamp == eight(b, 12)
            &&& h.build_version == four(b, 20)
            &&& h.objects_end == four(b, 24)
            &&& h.buffers_end == four(b, 28)
            &&& h.crc32 == four(b, 32)
            &&& h.chunk_count == four(b, 36)
        }),
{
    lemma_field(b, 4);
    lemma_field(b, 8);
    lemma_field(b, 12);
    lemma_field(b, 20);
    lemma_field(b, 24);
    lemma_field(b, 28);
    lemma_field(b, 32);
    lemma_field(b, 36);
}

proof fn lemma_header(b: Seq<u8>)
    requires
        b.len() >= 160,
        cr2w::field(b, 0, 4) == cr2w::CR2W_MAGIC,
        cr2w::bad_table(cr2w::header_of(b).tables, b.len(), 0) is None,
    ensures
        is_header(b, cr2w::header_of(b)),
{
    lemma_magic(b);
    lemma_numbers(b);
    let h = cr2w::header_of(b);
    assert forall|i: nat| i < 10 implies {
        let t = #[trigger] h.tables[i as int];
        &&& t.offset == four(b, 40 + 12 * i)
        &&& t.item_count == four(b, 44 + 12 * i)
        &&& t.crc32 == four(b, 48 + 12 * i)
        &&& t.offset <= b.len()
    } by {
        lemma_table(b, i);
        lemma_good(h.tables, b.len(), 0, i);
    }
}

proof fn lemma_good(tables: Seq<Cr2wTable>, size: nat, from: nat, i: nat)
    requires
        from <= i < tables.len(),
        cr2w::bad_table(tables, size, from) is None,
    ensures
        tables[i as int].offset <= size,
    decreases i - from,
{
    if from < i {
        lemma_good(tables, size, from + 1, i);
    }
}

/// The tables of a resource hold one item behind the other from the offset of the table
/// on. A name leads to the text at its offset in the table of strings, an import to its
/// path there and to the name of its class, an export to the name of its class, and an
/// embedded file to the path of its import.
pub proof fn law_tables_read(b: Seq<u8>)
    requires
        cr2w::inspection(b) is Ok,
    ensures
        ({
            let f = cr2w::inspection(b)->Ok_0;
            let t = f.header.tables;
            &&& is_header(b, f.header)
            &&& f.names.len() == t[1].item_count
            &&& forall|i: nat|
                i < f.names.len() ==> is_name(
                    b,
                    t[0],
                    t[1].offset as nat + 8 * i,
                    #[trigger] f.names[i as int],
                )
            &&& f.imports.len() == t[2].item_count
            &&& forall|i: nat|
                i < f.imports.len() ==> is_import(
                    b,
                    t[0],
                    f.names,
                    t[2].offset as nat + 8 * i,
                    #[trigger] f.imports[i as int],
                )
            &&& f.exports.len() == t[4].item_count
            &&& forall|i: nat|
                i < f.exports.len() ==> is_export(
                    b,
                    f.names,
                    t[4].offset as nat + 24 * i,
                    #[trigger] f.exports[i as int],
                )
            &&& f.buffers.len() == t[5].item_count
            &&& forall|i: nat|
                i < f.buffers.len() ==> is_buffer(
                    b,
                    t[5].offset as nat + 24 * i,
                    #[trigger] f.buffers[i as int],
                )
            &&& f.embedded.len() == t[6].item_count
            &&& forall|i: nat|
                i < f.embedded.len() ==> is_embedded(
                    b,
                    f.imports,
                    t[6].offset as nat + 16 * i,
                    #[trigger] f.embedded[i as int],
                )
        }),
{
    lemma_header(b);
    let f = cr2w::inspection(b)->Ok_0;
    let t = f.header.tables;
    lemma_names(b, t[0], t[1], f.strings, seq![]);
    lemma_imports(b, t[0], t[2], f.strings, f.names, seq![]);
    lemma_exports(b, t[4], f.names, seq![]);
    lemma_embedded(b, t[6], f.imports, seq![]);
    assert forall|i: nat| i < f.buffers.len() implies is_buffer(
        b,
        t[5].offset as nat + 24 * i,
        #[trigger] f.buffers[i as int],
    ) by {
        let at = t[5].offset as nat + 24 * i;
        lemma_field(b, at);
        lemma_field(b, at + 4);
        lemma_field(b, at + 8);
        lemma_field(b, at + 12);
        lemma_field(b, at + 16);
        lemma_field(b, at + 20);
    }
}

} // verus!
