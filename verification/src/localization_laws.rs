//! Localization entries that are written are read back.

use crate::binary;
use crate::cr2w;
use crate::cr2w::{Cr2wTable, EmbeddedModel, ExportModel, ImportModel, InspectionModel, NameModel};
use crate::cr2w::{StringModel, TABLE_COUNT};
use crate::localization;
use crate::localization::{EntryModel, LocalizationError, Property};
use crate::localization_writer;
use crate::sequence;
use vstd::prelude::*;

verus! {

// ---------------------------------------------------------------------------
// Properties
// ---------------------------------------------------------------------------

proof fn lemma_index(names: Seq<NameModel>, value: Seq<char>, i: nat)
    ensures
        localization_writer::index_from(names, value, i) matches Some(k) ==> i <= k < names.len()
            && names[k as int].value == value,
    decreases names.len() - i,
{
    if i < names.len() && names[i as int].value != value {
        lemma_index(names, value, i + 1);
    }
}

/// A name that is not the first one, whose index would end a list.
pub open spec fn not_first(names: Seq<NameModel>, value: Seq<char>) -> bool {
    names.len() > 0 && names[0].value != value
}

/// The names that entries use do not come first.
pub open spec fn names_ok(names: Seq<NameModel>) -> bool {
    &&& not_first(names, "secondaryKey"@)
    &&& not_first(names, "femaleVariant"@)
    &&& not_first(names, "maleVariant"@)
    &&& not_first(names, "entries"@)
}

proof fn lemma_name_index(names: Seq<NameModel>, value: Seq<char>)
    ensures
        localization_writer::name_index(names, value) matches Ok(k) ==> k < names.len()
            && k <= 0xffff && names[k as int].value == value && (not_first(names, value) ==> k > 0),
{
    lemma_index(names, value, 0);
}

/// A property is read back.
pub proof fn lemma_read_property(
    bytes: Seq<u8>,
    at: nat,
    names: nat,
    name: nat,
    red_type: nat,
    payload: Seq<u8>,
)
    requires
        0 < name < names,
        red_type < names,
        name <= 0xffff,
        red_type <= 0xffff,
        payload.len() + 4 <= 0xffff_ffff,
        sequence::stands(
            bytes,
            at,
            localization_writer::property_bytes(name, red_type, payload),
        ),
    ensures
        localization::property_at(bytes, at, names) == Ok::<Option<Property>, LocalizationError>(
            Some(Property { name, red_type, payload, next: at + 8 + payload.len() }),
        ),
        localization_writer::property_bytes(name, red_type, payload).len() == 8 + payload.len(),
{
    binary::lemma_byte_ranges();
    let a = binary::le_bytes(name, 2);
    let b = binary::le_bytes(red_type, 2);
    let c = binary::le_bytes(payload.len() + 4, 4);
    binary::lemma_le_bytes_len(name, 2);
    binary::lemma_le_bytes_len(red_type, 2);
    binary::lemma_le_bytes_len(payload.len() + 4, 4);
    sequence::lemma_stands_split(bytes, at, a + b + c, payload);
    sequence::lemma_stands_split(bytes, at, a + b, c);
    sequence::lemma_stands_split(bytes, at, a, b);
    binary::lemma_number_stands(bytes, at, name, 2);
    binary::lemma_number_stands(bytes, at + 2, red_type, 2);
    binary::lemma_number_stands(bytes, at + 4, payload.len() + 4, 4);
}

/// One text of an entry is read back; an empty text leaves the entry as it is.
proof fn lemma_read_text(
    bytes: Seq<u8>,
    at: nat,
    names: Seq<NameModel>,
    entry: EntryModel,
    name: Seq<char>,
    value: Seq<char>,
)
    requires
        not_first(names, name),
        localization_writer::text_property(names, name, value) is Ok,
        sequence::stands(
            bytes,
            at,
            localization_writer::text_property(names, name, value)->Ok_0,
        ),
        localization::with_text(entry, name, value) is Some,
        value.len() == 0 ==> localization::with_text(entry, name, value) == Some(entry),
    ensures
        localization::entry_from(bytes, at, names, entry) == localization::entry_from(
            bytes,
            at + localization_writer::text_property(names, name, value)->Ok_0.len(),
            names,
            localization::with_text(entry, name, value)->0,
        ),
{
    if value.len() > 0 {
        lemma_name_index(names, name);
        lemma_name_index(names, "String"@);
        let n = localization_writer::name_index(names, name)->Ok_0;
        let t = localization_writer::name_index(names, "String"@)->Ok_0;
        let payload = localization_writer::text_payload(value);
        lemma_read_property(bytes, at, names.len(), n, t, payload);
        localization::law_prefixed_string(value);
    }
}

/// An entry under the type name that every entry is read with.
pub open spec fn named(entry: EntryModel) -> EntryModel {
    EntryModel { red_type: "localizationPersistenceOnScreenEntry"@, ..entry }
}

/// Entries under that name.
pub open spec fn all_named(entries: Seq<EntryModel>) -> Seq<EntryModel> {
    Seq::new(entries.len(), |i: int| named(entries[i]))
}

proof fn lemma_named(names: Seq<NameModel>, entries: Seq<EntryModel>, n: nat)
    requires
        n <= entries.len(),
    ensures
        localization_writer::entries_bytes(names, all_named(entries), n)
            == localization_writer::entries_bytes(names, entries, n),
    decreases n,
{
    if n > 0 {
        lemma_named(names, entries, (n - 1) as nat);
        assert(all_named(entries)[n - 1] == named(entries[n - 1]));
    }
}

/// The type names of entries do not enter what is written.
pub proof fn law_type_name_unwritten(template: Seq<u8>, entries: Seq<EntryModel>)
    ensures
        localization_writer::written(template, all_named(entries)) == localization_writer::written(
            template,
            entries,
        ),
{
    if cr2w::inspection(template) is Ok {
        lemma_named(cr2w::inspection(template)->Ok_0.names, entries, entries.len());
    }
}

/// An entry that can be written, under the name that it is read with.
spec fn writable(entry: EntryModel) -> bool {
    entry.red_type == "localizationPersistenceOnScreenEntry"@ && entry.primary_key == "0"@
}

proof fn lemma_distinct_names()
    ensures
        "femaleVariant"@ != "maleVariant"@,
        "femaleVariant"@ != "secondaryKey"@,
        "maleVariant"@ != "secondaryKey"@,
{
    reveal_strlit("femaleVariant");
    reveal_strlit("maleVariant");
    reveal_strlit("secondaryKey");
    assert("femaleVariant"@.len() == 13);
    assert("maleVariant"@.len() == 11);
    assert("secondaryKey"@.len() == 12);
}

/// An entry is read back.
proof fn lemma_read_entry(bytes: Seq<u8>, at: nat, names: Seq<NameModel>, entry: EntryModel)
    requires
        names_ok(names),
        writable(entry),
        localization_writer::entry_bytes(names, entry) is Ok,
        sequence::stands(bytes, at, localization_writer::entry_bytes(names, entry)->Ok_0),
    ensures
        at < bytes.len(),
        bytes[at as int] == 0,
        localization::entry_from(bytes, at + 1, names, localization::empty_entry()) == Ok::<
            (EntryModel, nat),
            LocalizationError,
        >((entry, at + localization_writer::entry_bytes(names, entry)->Ok_0.len())),
{
    let a = localization_writer::text_property(names, "secondaryKey"@, entry.secondary_key)->Ok_0;
    let b = localization_writer::text_property(
        names,
        "femaleVariant"@,
        entry.female_variant,
    )->Ok_0;
    let c = localization_writer::text_property(names, "maleVariant"@, entry.male_variant)->Ok_0;
    let end = binary::le_bytes(0, 2);
    let whole = localization_writer::entry_bytes(names, entry)->Ok_0;
    assert(whole == seq![0u8] + a + b + c + end);
    sequence::lemma_stands_split(bytes, at, seq![0u8] + a + b + c, end);
    sequence::lemma_stands_split(bytes, at, seq![0u8] + a + b, c);
    sequence::lemma_stands_split(bytes, at, seq![0u8] + a, b);
    sequence::lemma_stands_split(bytes, at, seq![0u8], a);
    sequence::lemma_stands_index(bytes, at, seq![0u8], 0);
    lemma_distinct_names();
    let none = Seq::<char>::empty();
    let e0 = localization::empty_entry();
    let e1 = EntryModel { secondary_key: entry.secondary_key, ..e0 };
    let e2 = EntryModel { female_variant: entry.female_variant, ..e1 };
    let e3 = EntryModel { male_variant: entry.male_variant, ..e2 };
    if entry.secondary_key.len() == 0 {
        assert(entry.secondary_key =~= none);
    }
    if entry.female_variant.len() == 0 {
        assert(entry.female_variant =~= none);
    }
    if entry.male_variant.len() == 0 {
        assert(entry.male_variant =~= none);
    }
    lemma_read_text(bytes, at + 1, names, e0, "secondaryKey"@, entry.secondary_key);
    lemma_read_text(
        bytes,
        at + 1 + a.len(),
        names,
        e1,
        "femaleVariant"@,
        entry.female_variant,
    );
    lemma_read_text(
        bytes,
        at + 1 + a.len() + b.len(),
        names,
        e2,
        "maleVariant"@,
        entry.male_variant,
    );
    binary::lemma_byte_ranges();
    binary::lemma_le_bytes_len(0, 2);
    binary::lemma_number_stands(bytes, at + 1 + a.len() + b.len() + c.len(), 0, 2);
    assert(e3 == entry);
}

proof fn lemma_entries_prefix(
    names: Seq<NameModel>,
    entries: Seq<EntryModel>,
    i: nat,
    n: nat,
)
    requires
        i <= n,
        localization_writer::entries_bytes(names, entries, n) is Ok,
    ensures
        localization_writer::entries_bytes(names, entries, i) is Ok,
        sequence::stands(
            localization_writer::entries_bytes(names, entries, n)->Ok_0,
            0,
            localization_writer::entries_bytes(names, entries, i)->Ok_0,
        ),
    decreases n - i,
{
    let whole = localization_writer::entries_bytes(names, entries, n)->Ok_0;
    if i == n {
        assert(whole.subrange(0, whole.len() as int) =~= whole);
    } else {
        let before = localization_writer::entries_bytes(names, entries, (n - 1) as nat)->Ok_0;
        lemma_entries_prefix(names, entries, i, (n - 1) as nat);
        assert(whole.subrange(0, before.len() as int) =~= before);
        sequence::lemma_stands_within(
            whole,
            0,
            before,
            0,
            localization_writer::entries_bytes(names, entries, i)->Ok_0,
        );
    }
}

/// The entries from `i` on are read back.
proof fn lemma_read_entries(
    bytes: Seq<u8>,
    at: nat,
    names: Seq<NameModel>,
    entries: Seq<EntryModel>,
    i: nat,
)
    requires
        names_ok(names),
        i <= entries.len(),
        forall|k: int| 0 <= k < entries.len() ==> writable(#[trigger] entries[k]),
        localization_writer::entries_bytes(names, entries, entries.len()) is Ok,
        sequence::stands(
            bytes,
            at,
            localization_writer::entries_bytes(names, entries, entries.len())->Ok_0,
        ),
    ensures
        localization::entries_from(
            bytes,
            at + localization_writer::entries_bytes(names, entries, i)->Ok_0.len(),
            (entries.len() - i) as nat,
            names,
            entries.subrange(0, i as int),
        ) == Ok::<Seq<EntryModel>, LocalizationError>(entries),
    decreases entries.len() - i,
{
    if i == entries.len() {
        assert(entries.subrange(0, i as int) =~= entries);
    } else {
        let whole = localization_writer::entries_bytes(names, entries, entries.len())->Ok_0;
        lemma_entries_prefix(names, entries, i, entries.len());
        lemma_entries_prefix(names, entries, i + 1, entries.len());
        let before = localization_writer::entries_bytes(names, entries, i)->Ok_0;
        let after = localization_writer::entries_bytes(names, entries, i + 1)->Ok_0;
        let bytes_of = localization_writer::entry_bytes(names, entries[i as int])->Ok_0;
        sequence::lemma_stands_within(bytes, at, whole, 0, after);
        sequence::lemma_stands_split(bytes, at, before, bytes_of);
        lemma_read_entry(bytes, at + before.len(), names, entries[i as int]);
        assert(entries.subrange(0, i as int).push(entries[i as int]) =~= entries.subrange(
            0,
            i as int + 1,
        ));
        lemma_read_entries(bytes, at, names, entries, i + 1);
    }
}

/// The object that holds the entries is read back. Each entry comes back under
/// the one type name that entries have.
pub proof fn law_read_object(
    bytes: Seq<u8>,
    at: nat,
    names: Seq<NameModel>,
    entries: Seq<EntryModel>,
)
    requires
        names_ok(names),
        localization_writer::object_bytes(names, entries) is Ok,
        sequence::stands(bytes, at, localization_writer::object_bytes(names, entries)->Ok_0),
    ensures
        localization::entries_object(bytes, at, names) == Ok::<Seq<EntryModel>, LocalizationError>(
            all_named(entries),
        ),
{
    lemma_named(names, entries, entries.len());
    assert forall|k: int| 0 <= k < entries.len() implies writable(
        #[trigger] all_named(entries)[k],
    ) by {
        lemma_entries_prefix(names, entries, (k + 1) as nat, entries.len());
    }
    lemma_read_object(bytes, at, names, all_named(entries));
}

proof fn lemma_read_object(
    bytes: Seq<u8>,
    at: nat,
    names: Seq<NameModel>,
    entries: Seq<EntryModel>,
)
    requires
        names_ok(names),
        forall|k: int| 0 <= k < entries.len() ==> writable(#[trigger] entries[k]),
        localization_writer::object_bytes(names, entries) is Ok,
        sequence::stands(bytes, at, localization_writer::object_bytes(names, entries)->Ok_0),
    ensures
        localization::entries_object(bytes, at, names) == Ok::<Seq<EntryModel>, LocalizationError>(
            entries,
        ),
{
    let listed = localization_writer::entries_bytes(names, entries, entries.len())->Ok_0;
    let count = binary::le_bytes(entries.len(), 4);
    let array = count + listed;
    let n = localization_writer::name_index(names, "entries"@)->Ok_0;
    let t = localization_writer::name_index(
        names,
        "array:localizationPersistenceOnScreenEntry"@,
    )->Ok_0;
    let property = localization_writer::property_bytes(n, t, array);
    sequence::lemma_stands_split(bytes, at, seq![0u8] + property, binary::le_bytes(0, 2));
    sequence::lemma_stands_split(bytes, at, seq![0u8], property);
    sequence::lemma_stands_index(bytes, at, seq![0u8], 0);
    lemma_name_index(names, "entries"@);
    lemma_name_index(names, "array:localizationPersistenceOnScreenEntry"@);
    lemma_read_property(bytes, at + 1, names.len(), n, t, array);
    binary::lemma_byte_ranges();
    binary::law_read_written(entries.len(), 4);
    assert(array.subrange(0, 4) =~= count);
    assert(array.subrange(4, array.len() as int) =~= listed);
    lemma_read_entries(array, 4, names, entries, 0);
    assert(entries.subrange(0, 0) =~= Seq::<EntryModel>::empty());
}

// ---------------------------------------------------------------------------
// Templates
// ---------------------------------------------------------------------------

/// Two byte strings agree from `from` up to `to`.
spec fn agree(a: Seq<u8>, b: Seq<u8>, from: nat, to: nat) -> bool {
    &&& to <= a.len()
    &&& to <= b.len()
    &&& forall|i: int| from <= i < to ==> #[trigger] a[i] == b[i]
}

proof fn lemma_field_agree(a: Seq<u8>, b: Seq<u8>, at: nat, count: nat)
    requires
        agree(a, b, at, at + count),
    ensures
        cr2w::field(a, at, count) == cr2w::field(b, at, count),
{
    assert(a.subrange(at as int, (at + count) as int) =~= b.subrange(
        at as int,
        (at + count) as int,
    ));
}

/// Where a table of items of this size ends.
pub open spec fn table_end(table: Cr2wTable, size: nat) -> nat {
    table.offset as nat + size * table.item_count as nat
}

proof fn lemma_names_agree(
    a: Seq<u8>,
    b: Seq<u8>,
    table: Cr2wTable,
    strings: Seq<StringModel>,
    found: Seq<NameModel>,
)
    requires
        agree(a, b, table.offset as nat, table_end(table, 8)),
    ensures
        cr2w::names_from(a, table, strings, found) == cr2w::names_from(b, table, strings, found),
    decreases table.item_count - found.len(),
{
    if found.len() < table.item_count {
        let at = table.offset as nat + 8 * found.len();
        lemma_field_agree(a, b, at, 4);
        lemma_field_agree(a, b, at + 4, 4);
        match cr2w::string_with(strings, cr2w::field(a, at, 4) as u32, 0) {
            None => {},
            Some(k) => {
                lemma_names_agree(
                    a,
                    b,
                    table,
                    strings,
                    found.push(
                        NameModel {
                            value: strings[k as int].value,
                            hash: cr2w::field(a, at + 4, 4) as u32,
                        },
                    ),
                );
            },
        }
    }
}

proof fn lemma_imports_agree(
    a: Seq<u8>,
    b: Seq<u8>,
    table: Cr2wTable,
    strings: Seq<StringModel>,
    names: Seq<NameModel>,
    found: Seq<ImportModel>,
)
    requires
        agree(a, b, table.offset as nat, table_end(table, 8)),
    ensures
        cr2w::imports_from(a, table, strings, names, found) == cr2w::imports_from(
            b,
            table,
            strings,
            names,
            found,
        ),
    decreases table.item_count - found.len(),
{
    if found.len() < table.item_count {
        let at = table.offset as nat + 8 * found.len();
        lemma_field_agree(a, b, at, 4);
        lemma_field_agree(a, b, at + 4, 2);
        lemma_field_agree(a, b, at + 6, 2);
        let class = cr2w::field(a, at + 4, 2);
        match cr2w::string_with(strings, cr2w::field(a, at, 4) as u32, 0) {
            Some(k) if class < names.len() => {
                lemma_imports_agree(
                    a,
                    b,
                    table,
                    strings,
                    names,
                    found.push(
                        ImportModel {
                            depot_path: strings[k as int].value,
                            class_name: names[class as int].value,
                            flags: cr2w::field(a, at + 6, 2) as u16,
                        },
                    ),
                );
            },
            _ => {},
        }
    }
}

proof fn lemma_buffers_agree(a: Seq<u8>, b: Seq<u8>, table: Cr2wTable)
    requires
        agree(a, b, table.offset as nat, table_end(table, 24)),
    ensures
        cr2w::buffers_of(a, table) == cr2w::buffers_of(b, table),
{
    let x = cr2w::buffers_of(a, table)->Ok_0;
    let y = cr2w::buffers_of(b, table)->Ok_0;
    assert forall|i: int| 0 <= i < table.item_count implies x[i] == y[i] by {
        let at = (table.offset + 24 * i) as nat;
        lemma_field_agree(a, b, at, 4);
        lemma_field_agree(a, b, at + 4, 4);
        lemma_field_agree(a, b, at + 8, 4);
        lemma_field_agree(a, b, at + 12, 4);
        lemma_field_agree(a, b, at + 16, 4);
        lemma_field_agree(a, b, at + 20, 4);
    }
    assert(x =~= y);
}

proof fn lemma_embedded_agree(
    a: Seq<u8>,
    b: Seq<u8>,
    table: Cr2wTable,
    imports: Seq<ImportModel>,
    found: Seq<EmbeddedModel>,
)
    requires
        agree(a, b, table.offset as nat, table_end(table, 16)),
    ensures
        cr2w::embedded_from(a, table, imports, found) == cr2w::embedded_from(
            b,
            table,
            imports,
            found,
        ),
    decreases table.item_count - found.len(),
{
    if found.len() < table.item_count {
        let at = table.offset as nat + 16 * found.len();
        lemma_field_agree(a, b, at, 4);
        lemma_field_agree(a, b, at + 4, 4);
        lemma_field_agree(a, b, at + 8, 8);
        let import_index = cr2w::field(a, at, 4);
        if 0 < import_index <= imports.len() {
            lemma_embedded_agree(
                a,
                b,
                table,
                imports,
                found.push(
                    EmbeddedModel {
                        import_index: import_index as u32,
                        chunk_index: cr2w::field(a, at + 4, 4) as u32,
                        path_hash: cr2w::field(a, at + 8, 8) as u64,
                        depot_path: imports[import_index - 1].depot_path,
                    },
                ),
            );
        }
    }
}

proof fn lemma_exports_len(
    bytes: Seq<u8>,
    table: Cr2wTable,
    names: Seq<NameModel>,
    found: Seq<ExportModel>,
)
    requires
        found.len() <= table.item_count,
    ensures
        cr2w::exports_from(bytes, table, names, found) matches Ok(exports) ==> exports.len()
            == table.item_count,
    decreases table.item_count - found.len(),
{
    if found.len() < table.item_count {
        let at = table.offset as nat + 24 * found.len();
        lemma_exports_len(bytes, table, names, found.push(cr2w::export_at(bytes, at, names)));
    }
}

/// Two exports whose class indexes agree are both read.
proof fn lemma_exports_agree(a: Seq<u8>, b: Seq<u8>, table: Cr2wTable, names: Seq<NameModel>)
    requires
        table.item_count == 2,
        cr2w::exports_from(a, table, names, seq![]) is Ok,
        agree(a, b, table.offset as nat, table.offset as nat + 32),
        table.offset + 48 <= b.len(),
    ensures
        ({
            let x = cr2w::exports_from(a, table, names, seq![])->Ok_0;
            cr2w::exports_from(b, table, names, seq![]) matches Ok(y) && y.len() == 2
                && y[0].class_name == x[0].class_name && y[1].class_name == x[1].class_name
                && y[1].data_offset == cr2w::field(b, table.offset as nat + 36, 4) as u32
        }),
{
    let at = table.offset as nat;
    let none = Seq::<ExportModel>::empty();
    lemma_field_agree(a, b, at, 2);
    lemma_field_agree(a, b, at + 24, 2);
    let a0 = cr2w::export_at(a, at, names);
    let a1 = cr2w::export_at(a, at + 24, names);
    let b0 = cr2w::export_at(b, at, names);
    let b1 = cr2w::export_at(b, at + 24, names);
    assert(none.push(a0).len() == 1);
    assert(none.push(a0).push(a1).len() == 2);
    assert(cr2w::exports_from(a, table, names, none) == cr2w::exports_from(
        a,
        table,
        names,
        none.push(a0),
    ));
    assert(cr2w::exports_from(a, table, names, none.push(a0)) == cr2w::exports_from(
        a,
        table,
        names,
        none.push(a0).push(a1),
    ));
    assert(none.push(b0).push(b1).len() == 2);
    assert(cr2w::exports_from(b, table, names, none.push(b0)) == cr2w::exports_from(
        b,
        table,
        names,
        none.push(b0).push(b1),
    ));
}

/// A table that stays clear of what is rewritten: the header, and the size and
/// offset of the second export.
pub open spec fn table_clear(table: Cr2wTable, size: nat, exports: nat, end: nat) -> bool {
    &&& 160 <= table.offset
    &&& table_end(table, size) <= end
    &&& table_end(table, size) <= exports + 32 || exports + 40 <= table.offset
}

/// A template whose tables stand before its exports' data and apart from each
/// other.
pub open spec fn template_ok(template: Seq<u8>, found: InspectionModel) -> bool {
    let tables = found.header.tables;
    let exports = tables[4].offset as nat;
    let end = found.exports[0].data_offset as nat + found.exports[0].data_size as nat;
    &&& end <= template.len()
    &&& 160 <= exports
    &&& exports + 48 <= end
    &&& forall|i: int| 0 <= i < TABLE_COUNT ==> (#[trigger] tables[i]).offset <= end
    &&& table_clear(tables[0], 1, exports, end)
    &&& table_clear(tables[1], 8, exports, end)
    &&& table_clear(tables[2], 8, exports, end)
    &&& table_clear(tables[5], 24, exports, end)
    &&& table_clear(tables[6], 16, exports, end)
}

/// Where a refreshed resource differs from what it was made of.
proof fn lemma_refreshed(bytes: Seq<u8>, table: nat, chunk_size: nat, chunk_offset: nat)
    requires
        160 <= table,
        table + 48 <= bytes.len(),
        chunk_offset <= 0xffff_ffff,
    ensures
        ({
            let after = localization_writer::refreshed(bytes, table, chunk_size, chunk_offset);
            &&& after.len() == bytes.len()
            &&& forall|i: int|
                0 <= i < bytes.len() && !(24 <= i < 36) && !(96 <= i < 100) && !(table + 32 <= i
                    < table + 40) ==> #[trigger] after[i] == bytes[i]
            &&& cr2w::field(after, table + 36, 4) == chunk_offset
        }),
{
    let sized = localization_writer::patched(bytes, table + 32, chunk_size);
    binary::lemma_le_bytes_len(chunk_size, 4);
    assert(sized.len() == bytes.len());
    let placed = localization_writer::patched(sized, table + 36, chunk_offset);
    binary::lemma_byte_ranges();
    binary::lemma_le_bytes_len(chunk_offset, 4);
    assert(placed.len() == bytes.len());
    let first = localization_writer::patched(placed, 24, bytes.len());
    binary::lemma_le_bytes_len(bytes.len(), 4);
    assert(first.len() == bytes.len());
    let ended = localization_writer::patched(first, 28, bytes.len());
    assert(ended.len() == bytes.len());
    let crc = localization_writer::crc32_of(
        ended.subrange(table as int, table as int + 48),
    ) as nat;
    let listed = localization_writer::patched(ended, 96, crc);
    binary::lemma_le_bytes_len(crc, 4);
    assert(listed.len() == bytes.len());
    let last = localization_writer::crc32_of(localization_writer::checked_header(listed)) as nat;
    binary::lemma_le_bytes_len(last, 4);
    let after = localization_writer::patched(listed, 32, last);
    assert(after.subrange(table as int + 36, table as int + 40) =~= binary::le_bytes(
        chunk_offset,
        4,
    ));
    binary::law_read_written(chunk_offset, 4);
}

/// The header and tables of a rewritten template are found again.
proof fn lemma_inspect_rewritten(template: Seq<u8>, after: Seq<u8>, found: InspectionModel)
    requires
        cr2w::inspection(template) == Ok::<InspectionModel, cr2w::Cr2wError>(found),
        found.exports.len() == 2,
        template_ok(template, found),
        ({
            let end = found.exports[0].data_offset as nat + found.exports[0].data_size as nat;
            let table = found.header.tables[4].offset as nat;
            &&& end <= after.len()
            &&& forall|i: int|
                0 <= i < end && !(24 <= i < 36) && !(96 <= i < 100) && !(table + 32 <= i < table
                    + 40) ==> #[trigger] after[i] == template[i]
        }),
    ensures
        cr2w::inspection(after) matches Ok(again) && again.names == found.names
            && again.exports.len() == 2 && again.exports[0].class_name
            == found.exports[0].class_name && again.exports[1].class_name
            == found.exports[1].class_name && again.exports[1].data_offset == cr2w::field(
            after,
            found.header.tables[4].offset as nat + 36,
            4,
        ) as u32,
{
    let tables = found.header.tables;
    let again = cr2w::header_of(after).tables;
    assert forall|i: int| 0 <= i < TABLE_COUNT implies (#[trigger] again[i]).offset
        == tables[i].offset && again[i].item_count == tables[i].item_count && (i != 4 ==> again[i]
        == tables[i]) by {
        let at = (40 + 12 * i) as nat;
        assert(tables[i] == cr2w::table_at(template, at));
        assert(again[i] == cr2w::table_at(after, at));
        lemma_field_agree(after, template, at, 4);
        lemma_field_agree(after, template, at + 4, 4);
        if i != 4 {
            lemma_field_agree(after, template, at + 8, 4);
        }
    }
    lemma_field_agree(after, template, 0, 4);
    lemma_no_bad_table(again, after.len(), 0);
    let strings = cr2w::strings_of(template, tables[0])->Ok_0;
    let from = tables[0].offset as int;
    let to = tables[0].offset + tables[0].item_count;
    assert(template.subrange(from, to) =~= after.subrange(from, to));
    assert(cr2w::strings_of(after, tables[0]) == cr2w::strings_of(template, tables[0]));
    lemma_names_agree(after, template, tables[1], strings, seq![]);
    lemma_imports_agree(after, template, tables[2], strings, found.names, seq![]);
    lemma_exports_len(template, tables[4], found.names, seq![]);
    lemma_same_exports(after, tables[4], again[4], found.names, seq![]);
    lemma_exports_agree(template, after, tables[4], found.names);
    lemma_buffers_agree(after, template, tables[5]);
    lemma_embedded_agree(after, template, tables[6], found.imports, seq![]);
}

proof fn lemma_same_exports(
    bytes: Seq<u8>,
    a: Cr2wTable,
    b: Cr2wTable,
    names: Seq<NameModel>,
    found: Seq<ExportModel>,
)
    requires
        a.offset == b.offset,
        a.item_count == b.item_count,
    ensures
        cr2w::exports_from(bytes, a, names, found) == cr2w::exports_from(bytes, b, names, found),
    decreases a.item_count - found.len(),
{
    if found.len() < a.item_count {
        let at = a.offset as nat + 24 * found.len();
        lemma_same_exports(bytes, a, b, names, found.push(cr2w::export_at(bytes, at, names)));
    }
}

proof fn lemma_no_bad_table(tables: Seq<Cr2wTable>, size: nat, i: nat)
    requires
        forall|k: int| 0 <= k < tables.len() ==> (#[trigger] tables[k]).offset <= size,
    ensures
        cr2w::bad_table(tables, size, i) is None,
    decreases tables.len() - i,
{
    if i < tables.len() {
        lemma_no_bad_table(tables, size, i + 1);
    }
}

/// Entries that are written over a template are read back, each under the one
/// type name that entries have.
pub proof fn law_read_written(template: Seq<u8>, entries: Seq<EntryModel>)
    requires
        cr2w::inspection(template) is Ok,
        ({
            let found = cr2w::inspection(template)->Ok_0;
            &&& found.exports.len() == 2
            &&& found.exports[0].class_name == "JsonResource"@
            &&& found.exports[1].class_name == "localizationPersistenceOnScreenEntries"@
            &&& template_ok(template, found)
            &&& names_ok(found.names)
        }),
        localization_writer::written(template, entries) is Ok,
    ensures
        localization::resource_entries(localization_writer::written(template, entries)->Ok_0)
            == Ok::<Seq<EntryModel>, LocalizationError>(all_named(entries)),
{
    let found = cr2w::inspection(template)->Ok_0;
    let end = found.exports[0].data_offset as nat + found.exports[0].data_size as nat;
    let table = found.header.tables[4].offset as nat;
    let object = localization_writer::object_bytes(found.names, entries)->Ok_0;
    let kept = template.subrange(0, end as int);
    let bytes = kept + object;
    let after = localization_writer::refreshed(bytes, table, object.len(), end);
    lemma_refreshed(bytes, table, object.len(), end);
    assert forall|i: int|
        0 <= i < end && !(24 <= i < 36) && !(96 <= i < 100) && !(table + 32 <= i < table
            + 40) implies #[trigger] after[i] == template[i] by {
        assert(after[i] == bytes[i]);
        assert(bytes[i] == kept[i]);
    }
    lemma_inspect_rewritten(template, after, found);
    assert(after.subrange(end as int, (end + object.len()) as int) =~= object) by {
        assert forall|k: int| 0 <= k < object.len() implies after[end + k] == object[k] by {
            assert(after[end + k] == bytes[end + k]);
        }
    }
    law_read_object(after, end, found.names, entries);
}

} // verus!
