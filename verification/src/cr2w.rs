//! Structural inspection of CR2W files.

use crate::archive;
use crate::binary;
use crate::binary::{read_u16_le, read_u32_le, read_u64_le};
use crate::sequence::part;
use crate::text::from_utf8;
use vstd::prelude::*;
use vstd::utf8;

verus! {

/// `CR2W` as a little-endian number.
pub const CR2W_MAGIC: u32 = 0x5732_5243;

/// How many table descriptors follow the header.
pub const TABLE_COUNT: usize = 10;

/// Reports malformed CR2W files.
#[derive(Debug, Clone, Copy, PartialEq, Eq, Structural)]
pub enum Cr2wError {
    /// The file ends before a field that it announces.
    Truncated,
    /// Not a CR2W file.
    InvalidMagic { actual: u32 },
    /// A table is outside the file.
    InvalidTable { table: usize },
    /// The string table contains invalid UTF-8.
    InvalidString { offset: u32 },
    /// A name references a missing string.
    MissingNameString { name: usize, offset: u32 },
    /// An import, export or embedded file references a missing string or name.
    InvalidImport { import: usize },
}

#[derive(Debug, Clone, Copy, PartialEq, Eq, Structural)]
pub struct Cr2wTable {
    pub offset: u32,
    pub item_count: u32,
    pub crc32: u32,
}

#[derive(Debug)]
pub struct Cr2wHeader {
    pub version: u32,
    pub flags: u32,
    pub timestamp: u64,
    pub build_version: u32,
    pub objects_end: u32,
    pub buffers_end: u32,
    pub crc32: u32,
    pub chunk_count: u32,
    pub tables: Vec<Cr2wTable>,
}

#[derive(Debug)]
pub struct Cr2wString {
    pub offset: u32,
    pub value: String,
}

#[derive(Debug)]
pub struct Cr2wName {
    pub value: String,
    pub hash: u32,
}

#[derive(Debug)]
pub struct Cr2wImport {
    pub depot_path: String,
    pub class_name: String,
    pub flags: u16,
}

#[derive(Debug)]
pub struct Cr2wExport {
    pub class_name: String,
    pub object_flags: u16,
    pub parent_id: u32,
    pub data_size: u32,
    pub data_offset: u32,
    pub template: u32,
    pub crc32: u32,
}

#[derive(Debug, Clone, Copy, PartialEq, Eq, Structural)]
pub struct Cr2wBuffer {
    pub flags: u32,
    pub index: u32,
    pub offset: u32,
    pub disk_size: u32,
    pub memory_size: u32,
    pub crc32: u32,
}

#[derive(Debug)]
pub struct Cr2wEmbedded {
    pub import_index: u32,
    pub chunk_index: u32,
    pub path_hash: u64,
    pub depot_path: String,
}

#[derive(Debug)]
pub struct Cr2wInspection {
    pub header: Cr2wHeader,
    pub strings: Vec<Cr2wString>,
    pub names: Vec<Cr2wName>,
    pub imports: Vec<Cr2wImport>,
    pub exports: Vec<Cr2wExport>,
    pub buffers: Vec<Cr2wBuffer>,
    pub embedded: Vec<Cr2wEmbedded>,
}

pub ghost struct HeaderModel {
    pub version: u32,
    pub flags: u32,
    pub timestamp: u64,
    pub build_version: u32,
    pub objects_end: u32,
    pub buffers_end: u32,
    pub crc32: u32,
    pub chunk_count: u32,
    pub tables: Seq<Cr2wTable>,
}

pub ghost struct StringModel {
    pub offset: u32,
    pub value: Seq<char>,
}

pub ghost struct NameModel {
    pub value: Seq<char>,
    pub hash: u32,
}

pub ghost struct ImportModel {
    pub depot_path: Seq<char>,
    pub class_name: Seq<char>,
    pub flags: u16,
}

pub ghost struct ExportModel {
    pub class_name: Seq<char>,
    pub object_flags: u16,
    pub parent_id: u32,
    pub data_size: u32,
    pub data_offset: u32,
    pub template: u32,
    pub crc32: u32,
}

pub ghost struct EmbeddedModel {
    pub import_index: u32,
    pub chunk_index: u32,
    pub path_hash: u64,
    pub depot_path: Seq<char>,
}

pub ghost struct InspectionModel {
    pub header: HeaderModel,
    pub strings: Seq<StringModel>,
    pub names: Seq<NameModel>,
    pub imports: Seq<ImportModel>,
    pub exports: Seq<ExportModel>,
    pub buffers: Seq<Cr2wBuffer>,
    pub embedded: Seq<EmbeddedModel>,
}

impl View for Cr2wHeader {
    type V = HeaderModel;

    open spec fn view(&self) -> HeaderModel {
        HeaderModel {
            version: self.version,
            flags: self.flags,
            timestamp: self.timestamp,
            build_version: self.build_version,
            objects_end: self.objects_end,
            buffers_end: self.buffers_end,
            crc32: self.crc32,
            chunk_count: self.chunk_count,
            tables: self.tables@,
        }
    }
}

impl View for Cr2wString {
    type V = StringModel;

    open spec fn view(&self) -> StringModel {
        StringModel { offset: self.offset, value: self.value@ }
    }
}

impl View for Cr2wName {
    type V = NameModel;

    open spec fn view(&self) -> NameModel {
        NameModel { value: self.value@, hash: self.hash }
    }
}

impl View for Cr2wImport {
    type V = ImportModel;

    open spec fn view(&self) -> ImportModel {
        ImportModel {
            depot_path: self.depot_path@,
            class_name: self.class_name@,
            flags: self.flags,
        }
    }
}

impl View for Cr2wExport {
    type V = ExportModel;

    open spec fn view(&self) -> ExportModel {
        ExportModel {
            class_name: self.class_name@,
            object_flags: self.object_flags,
            parent_id: self.parent_id,
            data_size: self.data_size,
            data_offset: self.data_offset,
            template: self.template,
            crc32: self.crc32,
        }
    }
}

impl View for Cr2wEmbedded {
    type V = EmbeddedModel;

    open spec fn view(&self) -> EmbeddedModel {
        EmbeddedModel {
            import_index: self.import_index,
            chunk_index: self.chunk_index,
            path_hash: self.path_hash,
            depot_path: self.depot_path@,
        }
    }
}

pub open spec fn string_models(list: Seq<Cr2wString>) -> Seq<StringModel> {
    list.map_values(|item: Cr2wString| item@)
}

pub open spec fn name_models(list: Seq<Cr2wName>) -> Seq<NameModel> {
    list.map_values(|item: Cr2wName| item@)
}

pub open spec fn import_models(list: Seq<Cr2wImport>) -> Seq<ImportModel> {
    list.map_values(|item: Cr2wImport| item@)
}

pub open spec fn export_models(list: Seq<Cr2wExport>) -> Seq<ExportModel> {
    list.map_values(|item: Cr2wExport| item@)
}

pub open spec fn embedded_models(list: Seq<Cr2wEmbedded>) -> Seq<EmbeddedModel> {
    list.map_values(|item: Cr2wEmbedded| item@)
}

impl View for Cr2wInspection {
    type V = InspectionModel;

    open spec fn view(&self) -> InspectionModel {
        InspectionModel {
            header: self.header@,
            strings: string_models(self.strings@),
            names: name_models(self.names@),
            imports: import_models(self.imports@),
            exports: export_models(self.exports@),
            buffers: self.buffers@,
            embedded: embedded_models(self.embedded@),
        }
    }
}

// ---------------------------------------------------------------------------
// Header
// ---------------------------------------------------------------------------

/// A number in the header.
pub open spec fn field(bytes: Seq<u8>, at: nat, count: nat) -> nat {
    archive::field(bytes, at, count)
}

/// The table descriptor at `at`.
pub open spec fn table_at(bytes: Seq<u8>, at: nat) -> Cr2wTable {
    Cr2wTable {
        offset: field(bytes, at, 4) as u32,
        item_count: field(bytes, at + 4, 4) as u32,
        crc32: field(bytes, at + 8, 4) as u32,
    }
}

/// The header of a file that is long enough.
pub open spec fn header_of(bytes: Seq<u8>) -> HeaderModel {
    HeaderModel {
        version: field(bytes, 4, 4) as u32,
        flags: field(bytes, 8, 4) as u32,
        timestamp: field(bytes, 12, 8) as u64,
        build_version: field(bytes, 20, 4) as u32,
        objects_end: field(bytes, 24, 4) as u32,
        buffers_end: field(bytes, 28, 4) as u32,
        crc32: field(bytes, 32, 4) as u32,
        chunk_count: field(bytes, 36, 4) as u32,
        tables: Seq::new(TABLE_COUNT as nat, |i: int| table_at(bytes, (40 + 12 * i) as nat)),
    }
}

/// The first table from `i` on that is outside the file.
pub open spec fn bad_table(tables: Seq<Cr2wTable>, size: nat, i: nat) -> Option<nat>
    decreases tables.len() - i,
{
    if i >= tables.len() {
        None
    } else if tables[i as int].offset > size {
        Some(i)
    } else {
        bad_table(tables, size, i + 1)
    }
}

// ---------------------------------------------------------------------------
// Tables
// ---------------------------------------------------------------------------

/// Where a string that starts at `at` ends.
pub open spec fn string_end(bytes: Seq<u8>, at: nat) -> nat {
    match archive::next_zero(bytes, at) {
        Some(end) => end,
        None => bytes.len(),
    }
}

/// The strings from `at` on, after those of `found`; an empty one reads `None`.
pub open spec fn strings_from(bytes: Seq<u8>, at: nat, found: Seq<StringModel>) -> Result<
    Seq<StringModel>,
    Cr2wError,
>
    decreases bytes.len() - at,
{
    if at >= bytes.len() {
        Ok(found)
    } else {
        let end = string_end(bytes, at);
        let coded = bytes.subrange(at as int, end as int);
        if !utf8::valid_utf8(coded) {
            Err(Cr2wError::InvalidString { offset: at as u32 })
        } else {
            let value = utf8::decode_utf8(coded);
            let more = found.push(
                StringModel {
                    offset: at as u32,
                    value: if value.len() == 0 {
                        "None"@
                    } else {
                        value
                    },
                },
            );
            proof {
                archive::lemma_next_zero(bytes, at);
            }
            if end >= bytes.len() {
                Ok(more)
            } else {
                strings_from(bytes, end + 1, more)
            }
        }
    }
}

/// The first string from `i` on with this offset.
pub open spec fn string_with(strings: Seq<StringModel>, offset: u32, i: nat) -> Option<nat>
    decreases strings.len() - i,
{
    if i >= strings.len() {
        None
    } else if strings[i as int].offset == offset {
        Some(i)
    } else {
        string_with(strings, offset, i + 1)
    }
}

/// The strings of a table that counts its bytes.
pub open spec fn strings_of(bytes: Seq<u8>, table: Cr2wTable) -> Result<
    Seq<StringModel>,
    Cr2wError,
> {
    if table.offset + table.item_count > bytes.len() {
        Err(Cr2wError::Truncated)
    } else {
        strings_from(
            bytes.subrange(table.offset as int, table.offset + table.item_count),
            0,
            seq![],
        )
    }
}

/// The names from the `i`-th on, after those of `found`.
pub open spec fn names_from(
    bytes: Seq<u8>,
    table: Cr2wTable,
    strings: Seq<StringModel>,
    found: Seq<NameModel>,
) -> Result<Seq<NameModel>, Cr2wError>
    decreases table.item_count - found.len(),
{
    if found.len() >= table.item_count {
        Ok(found)
    } else {
        let at = table.offset as nat + 8 * found.len();
        if at + 8 > bytes.len() {
            Err(Cr2wError::Truncated)
        } else {
            let offset = field(bytes, at, 4) as u32;
            match string_with(strings, offset, 0) {
                None => Err(
                    Cr2wError::MissingNameString { name: found.len() as usize, offset },
                ),
                Some(k) => names_from(
                    bytes,
                    table,
                    strings,
                    found.push(
                        NameModel {
                            value: strings[k as int].value,
                            hash: field(bytes, at + 4, 4) as u32,
                        },
                    ),
                ),
            }
        }
    }
}

/// The imports from the `i`-th on, after those of `found`.
pub open spec fn imports_from(
    bytes: Seq<u8>,
    table: Cr2wTable,
    strings: Seq<StringModel>,
    names: Seq<NameModel>,
    found: Seq<ImportModel>,
) -> Result<Seq<ImportModel>, Cr2wError>
    decreases table.item_count - found.len(),
{
    if found.len() >= table.item_count {
        Ok(found)
    } else {
        let at = table.offset as nat + 8 * found.len();
        if at + 8 > bytes.len() {
            Err(Cr2wError::Truncated)
        } else {
            let class = field(bytes, at + 4, 2);
            match string_with(strings, field(bytes, at, 4) as u32, 0) {
                Some(k) if class < names.len() => imports_from(
                    bytes,
                    table,
                    strings,
                    names,
                    found.push(
                        ImportModel {
                            depot_path: strings[k as int].value,
                            class_name: names[class as int].value,
                            flags: field(bytes, at + 6, 2) as u16,
                        },
                    ),
                ),
                _ => Err(Cr2wError::InvalidImport { import: found.len() as usize }),
            }
        }
    }
}

/// The export at `at`.
pub open spec fn export_at(bytes: Seq<u8>, at: nat, names: Seq<NameModel>) -> ExportModel {
    ExportModel {
        class_name: names[field(bytes, at, 2) as int].value,
        object_flags: field(bytes, at + 2, 2) as u16,
        parent_id: field(bytes, at + 4, 4) as u32,
        data_size: field(bytes, at + 8, 4) as u32,
        data_offset: field(bytes, at + 12, 4) as u32,
        template: field(bytes, at + 16, 4) as u32,
        crc32: field(bytes, at + 20, 4) as u32,
    }
}

/// The exports from the `i`-th on, after those of `found`.
pub open spec fn exports_from(
    bytes: Seq<u8>,
    table: Cr2wTable,
    names: Seq<NameModel>,
    found: Seq<ExportModel>,
) -> Result<Seq<ExportModel>, Cr2wError>
    decreases table.item_count - found.len(),
{
    if found.len() >= table.item_count {
        Ok(found)
    } else {
        let at = table.offset as nat + 24 * found.len();
        if at + 4 > bytes.len() {
            Err(Cr2wError::Truncated)
        } else if field(bytes, at, 2) >= names.len() {
            Err(Cr2wError::InvalidImport { import: found.len() as usize })
        } else if at + 24 > bytes.len() {
            Err(Cr2wError::Truncated)
        } else {
            exports_from(bytes, table, names, found.push(export_at(bytes, at, names)))
        }
    }
}

/// The buffer at `at`.
pub open spec fn buffer_at(bytes: Seq<u8>, at: nat) -> Cr2wBuffer {
    Cr2wBuffer {
        flags: field(bytes, at, 4) as u32,
        index: field(bytes, at + 4, 4) as u32,
        offset: field(bytes, at + 8, 4) as u32,
        disk_size: field(bytes, at + 12, 4) as u32,
        memory_size: field(bytes, at + 16, 4) as u32,
        crc32: field(bytes, at + 20, 4) as u32,
    }
}

/// The buffers of a table.
pub open spec fn buffers_of(bytes: Seq<u8>, table: Cr2wTable) -> Result<
    Seq<Cr2wBuffer>,
    Cr2wError,
> {
    if table.item_count > 0 && table.offset + 24 * table.item_count > bytes.len() {
        Err(Cr2wError::Truncated)
    } else {
        Ok(
            Seq::new(
                table.item_count as nat,
                |i: int| buffer_at(bytes, (table.offset + 24 * i) as nat),
            ),
        )
    }
}

/// The embedded files from the `i`-th on, after those of `found`.
pub open spec fn embedded_from(
    bytes: Seq<u8>,
    table: Cr2wTable,
    imports: Seq<ImportModel>,
    found: Seq<EmbeddedModel>,
) -> Result<Seq<EmbeddedModel>, Cr2wError>
    decreases table.item_count - found.len(),
{
    if found.len() >= table.item_count {
        Ok(found)
    } else {
        let at = table.offset as nat + 16 * found.len();
        if at + 16 > bytes.len() {
            Err(Cr2wError::Truncated)
        } else {
            let import_index = field(bytes, at, 4);
            if import_index == 0 || import_index > imports.len() {
                Err(Cr2wError::InvalidImport { import: found.len() as usize })
            } else {
                embedded_from(
                    bytes,
                    table,
                    imports,
                    found.push(
                        EmbeddedModel {
                            import_index: import_index as u32,
                            chunk_index: field(bytes, at + 4, 4) as u32,
                            path_hash: field(bytes, at + 8, 8) as u64,
                            depot_path: imports[import_index - 1].depot_path,
                        },
                    ),
                )
            }
        }
    }
}

/// What inspection finds in a file.
pub open spec fn inspection(bytes: Seq<u8>) -> Result<InspectionModel, Cr2wError> {
    if bytes.len() < 4 {
        Err(Cr2wError::Truncated)
    } else if field(bytes, 0, 4) != CR2W_MAGIC {
        Err(Cr2wError::InvalidMagic { actual: field(bytes, 0, 4) as u32 })
    } else if bytes.len() < 160 {
        Err(Cr2wError::Truncated)
    } else {
        let header = header_of(bytes);
        match bad_table(header.tables, bytes.len(), 0) {
            Some(table) => Err(Cr2wError::InvalidTable { table: table as usize }),
            None => inspected_tables(bytes, header),
        }
    }
}

/// What the tables hold.
pub open spec fn inspected_tables(bytes: Seq<u8>, header: HeaderModel) -> Result<
    InspectionModel,
    Cr2wError,
> {
    let tables = header.tables;
    match strings_of(bytes, tables[0]) {
        Err(error) => Err(error),
        Ok(strings) => match names_from(bytes, tables[1], strings, seq![]) {
            Err(error) => Err(error),
            Ok(names) => match imports_from(bytes, tables[2], strings, names, seq![]) {
                Err(error) => Err(error),
                Ok(imports) => match exports_from(bytes, tables[4], names, seq![]) {
                    Err(error) => Err(error),
                    Ok(exports) => match buffers_of(bytes, tables[5]) {
                        Err(error) => Err(error),
                        Ok(buffers) => match embedded_from(bytes, tables[6], imports, seq![]) {
                            Err(error) => Err(error),
                            Ok(embedded) => Ok(
                                InspectionModel {
                                    header,
                                    strings,
                                    names,
                                    imports,
                                    exports,
                                    buffers,
                                    embedded,
                                },
                            ),
                        },
                    },
                },
            },
        },
    }
}

// ---------------------------------------------------------------------------
// Inspecting
// ---------------------------------------------------------------------------

fn get_u16(bytes: &[u8], at: usize) -> (result: u16)
    requires
        at + 2 <= bytes@.len(),
    ensures
        result == field(bytes@, at as nat, 2),
{
    match read_u16_le(bytes, at) {
        Some(value) => value,
        None => 0,
    }
}

fn get_u32(bytes: &[u8], at: usize) -> (result: u32)
    requires
        at + 4 <= bytes@.len(),
    ensures
        result == field(bytes@, at as nat, 4),
{
    match read_u32_le(bytes, at) {
        Some(value) => value,
        None => 0,
    }
}

fn get_u64(bytes: &[u8], at: usize) -> (result: u64)
    requires
        at + 8 <= bytes@.len(),
    ensures
        result == field(bytes@, at as nat, 8),
{
    match read_u64_le(bytes, at) {
        Some(value) => value,
        None => 0,
    }
}

/// Where item `i` of a table stands, if it is there.
fn item_at(bytes: &[u8], table: Cr2wTable, i: usize, size: u64, needed: u64) -> (result: Option<
    usize,
>)
    requires
        i <= 0xffff_ffff,
        0 < size <= 24,
        needed <= 24,
    ensures
        match result {
            Some(at) => at == table.offset + size * i && at + needed <= bytes@.len() && at + needed
                <= usize::MAX,
            None => table.offset + size * i + needed > bytes@.len(),
        },
{
    assert(size * i <= 24 * 0xffff_ffff) by (nonlinear_arith)
        requires
            size <= 24,
            i <= 0xffff_ffff,
    ;
    let at: u64 = table.offset as u64 + size * i as u64;
    let length: u64 = bytes.len() as u64;
    if at > length || length - at < needed {
        None
    } else {
        Some(at as usize)
    }
}

fn read_strings(bytes: &[u8], table: Cr2wTable) -> (result: Result<Vec<Cr2wString>, Cr2wError>)
    ensures
        match strings_of(bytes@, table) {
            Err(error) => result matches Err(e) && e == error,
            Ok(strings) => result matches Ok(r) && string_models(r@) == strings,
        },
{
    let length: u64 = bytes.len() as u64;
    if table.offset as u64 + table.item_count as u64 > length {
        return Err(Cr2wError::Truncated);
    }
    let from: usize = table.offset as usize;
    let data: &[u8] = part(bytes, from, from + table.item_count as usize);
    let mut strings: Vec<Cr2wString> = Vec::new();
    let mut start: usize = 0;
    let size: usize = data.len();
    assert(string_models(strings@) =~= Seq::<StringModel>::empty());
    while start < size
        invariant
            size == data@.len(),
            size <= 0xffff_ffff,
            strings_of(bytes@, table) == strings_from(data@, start as nat, string_models(strings@)),
        decreases size - start,
    {
        let mut end: usize = start;
        while end < size && data[end] != 0
            invariant
                start <= end <= size == data@.len(),
                archive::next_zero(data@, start as nat) == archive::next_zero(data@, end as nat),
            decreases size - end,
        {
            end = end + 1;
        }
        assert(string_end(data@, start as nat) == end);
        let value: String = match from_utf8(part(data, start, end)) {
            Some(value) => value,
            None => return Err(Cr2wError::InvalidString { offset: start as u32 }),
        };
        let shown: String = if value.as_str().is_empty() {
            "None".to_owned()
        } else {
            value
        };
        let item: Cr2wString = Cr2wString { offset: start as u32, value: shown };
        proof {
            assert(string_models(strings@.push(item)) =~= string_models(strings@).push(item@));
        }
        strings.push(item);
        start = if end < size {
            end + 1
        } else {
            end
        };
    }
    Ok(strings)
}

fn find_string(strings: &[Cr2wString], offset: u32) -> (result: Option<usize>)
    ensures
        match string_with(string_models(strings@), offset, 0) {
            None => result is None,
            Some(k) => result matches Some(r) && r == k && k < strings@.len(),
        },
{
    let ghost all = string_models(strings@);
    let mut i: usize = 0;
    while i < strings.len()
        invariant
            i <= strings@.len(),
            all == string_models(strings@),
            string_with(all, offset, 0) == string_with(all, offset, i as nat),
        decreases strings@.len() - i,
    {
        assert(all[i as int] == strings@[i as int]@);
        if strings[i].offset == offset {
            return Some(i);
        }
        i = i + 1;
    }
    None
}

fn read_names(bytes: &[u8], table: Cr2wTable, strings: &[Cr2wString]) -> (result: Result<
    Vec<Cr2wName>,
    Cr2wError,
>)
    ensures
        match names_from(bytes@, table, string_models(strings@), seq![]) {
            Err(error) => result matches Err(e) && e == error,
            Ok(names) => result matches Ok(r) && name_models(r@) == names,
        },
{
    let mut names: Vec<Cr2wName> = Vec::new();
    assert(name_models(names@) =~= Seq::<NameModel>::empty());
    while names.len() < table.item_count as usize
        invariant
            names_from(bytes@, table, string_models(strings@), seq![]) == names_from(
                bytes@,
                table,
                string_models(strings@),
                name_models(names@),
            ),
        decreases table.item_count - names@.len(),
    {
        let at: usize = match item_at(bytes, table, names.len(), 8, 8) {
            Some(at) => at,
            None => return Err(Cr2wError::Truncated),
        };
        let offset: u32 = get_u32(bytes, at);
        let k: usize = match find_string(strings, offset) {
            Some(k) => k,
            None => return Err(Cr2wError::MissingNameString { name: names.len(), offset }),
        };
        assert(string_models(strings@)[k as int] == strings@[k as int]@);
        let item: Cr2wName = Cr2wName {
            value: strings[k].value.clone(),
            hash: get_u32(bytes, at + 4),
        };
        proof {
            assert(name_models(names@.push(item)) =~= name_models(names@).push(item@));
        }
        names.push(item);
    }
    Ok(names)
}

fn read_imports(bytes: &[u8], table: Cr2wTable, strings: &[Cr2wString], names: &[Cr2wName]) -> (result:
    Result<Vec<Cr2wImport>, Cr2wError>)
    ensures
        match imports_from(
            bytes@,
            table,
            string_models(strings@),
            name_models(names@),
            seq![],
        ) {
            Err(error) => result matches Err(e) && e == error,
            Ok(imports) => result matches Ok(r) && import_models(r@) == imports,
        },
{
    let mut imports: Vec<Cr2wImport> = Vec::new();
    assert(import_models(imports@) =~= Seq::<ImportModel>::empty());
    while imports.len() < table.item_count as usize
        invariant
            imports_from(bytes@, table, string_models(strings@), name_models(names@), seq![])
                == imports_from(
                bytes@,
                table,
                string_models(strings@),
                name_models(names@),
                import_models(imports@),
            ),
        decreases table.item_count - imports@.len(),
    {
        let at: usize = match item_at(bytes, table, imports.len(), 8, 8) {
            Some(at) => at,
            None => return Err(Cr2wError::Truncated),
        };
        let class: usize = get_u16(bytes, at + 4) as usize;
        let k: usize = match find_string(strings, get_u32(bytes, at)) {
            Some(k) => k,
            None => return Err(Cr2wError::InvalidImport { import: imports.len() }),
        };
        if class >= names.len() {
            return Err(Cr2wError::InvalidImport { import: imports.len() });
        }
        proof {
            assert(string_models(strings@)[k as int] == strings@[k as int]@);
            assert(name_models(names@)[class as int] == names@[class as int]@);
        }
        let item: Cr2wImport = Cr2wImport {
            depot_path: strings[k].value.clone(),
            class_name: names[class].value.clone(),
            flags: get_u16(bytes, at + 6),
        };
        proof {
            assert(import_models(imports@.push(item)) =~= import_models(imports@).push(item@));
        }
        imports.push(item);
    }
    Ok(imports)
}

fn read_exports(bytes: &[u8], table: Cr2wTable, names: &[Cr2wName]) -> (result: Result<
    Vec<Cr2wExport>,
    Cr2wError,
>)
    ensures
        match exports_from(bytes@, table, name_models(names@), seq![]) {
            Err(error) => result matches Err(e) && e == error,
            Ok(exports) => result matches Ok(r) && export_models(r@) == exports,
        },
{
    let mut exports: Vec<Cr2wExport> = Vec::new();
    assert(export_models(exports@) =~= Seq::<ExportModel>::empty());
    while exports.len() < table.item_count as usize
        invariant
            exports_from(bytes@, table, name_models(names@), seq![]) == exports_from(
                bytes@,
                table,
                name_models(names@),
                export_models(exports@),
            ),
        decreases table.item_count - exports@.len(),
    {
        let first: usize = match item_at(bytes, table, exports.len(), 24, 4) {
            Some(at) => at,
            None => return Err(Cr2wError::Truncated),
        };
        let class: usize = get_u16(bytes, first) as usize;
        if class >= names.len() {
            return Err(Cr2wError::InvalidImport { import: exports.len() });
        }
        let at: usize = match item_at(bytes, table, exports.len(), 24, 24) {
            Some(at) => at,
            None => return Err(Cr2wError::Truncated),
        };
        assert(name_models(names@)[class as int] == names@[class as int]@);
        let item: Cr2wExport = Cr2wExport {
            class_name: names[class].value.clone(),
            object_flags: get_u16(bytes, at + 2),
            parent_id: get_u32(bytes, at + 4),
            data_size: get_u32(bytes, at + 8),
            data_offset: get_u32(bytes, at + 12),
            template: get_u32(bytes, at + 16),
            crc32: get_u32(bytes, at + 20),
        };
        proof {
            assert(export_models(exports@.push(item)) =~= export_models(exports@).push(item@));
        }
        exports.push(item);
    }
    Ok(exports)
}

fn read_buffers(bytes: &[u8], table: Cr2wTable) -> (result: Result<Vec<Cr2wBuffer>, Cr2wError>)
    ensures
        match buffers_of(bytes@, table) {
            Err(error) => result matches Err(e) && e == error,
            Ok(buffers) => result matches Ok(r) && r@ == buffers,
        },
{
    let mut buffers: Vec<Cr2wBuffer> = Vec::new();
    while buffers.len() < table.item_count as usize
        invariant
            buffers@.len() <= table.item_count,
            forall|k: int|
                0 <= k < buffers@.len() ==> #[trigger] buffers@[k] == buffer_at(
                    bytes@,
                    (table.offset + 24 * k) as nat,
                ),
            buffers@.len() > 0 ==> table.offset + 24 * buffers@.len() <= bytes@.len(),
        decreases table.item_count - buffers@.len(),
    {
        let at: usize = match item_at(bytes, table, buffers.len(), 24, 24) {
            Some(at) => at,
            None => return Err(Cr2wError::Truncated),
        };
        buffers.push(
            Cr2wBuffer {
                flags: get_u32(bytes, at),
                index: get_u32(bytes, at + 4),
                offset: get_u32(bytes, at + 8),
                disk_size: get_u32(bytes, at + 12),
                memory_size: get_u32(bytes, at + 16),
                crc32: get_u32(bytes, at + 20),
            },
        );
    }
    proof {
        if buffers_of(bytes@, table) is Ok {
            assert(buffers@ =~= buffers_of(bytes@, table)->Ok_0);
        }
    }
    Ok(buffers)
}

fn read_embedded(bytes: &[u8], table: Cr2wTable, imports: &[Cr2wImport]) -> (result: Result<
    Vec<Cr2wEmbedded>,
    Cr2wError,
>)
    ensures
        match embedded_from(bytes@, table, import_models(imports@), seq![]) {
            Err(error) => result matches Err(e) && e == error,
            Ok(embedded) => result matches Ok(r) && embedded_models(r@) == embedded,
        },
{
    let mut embedded: Vec<Cr2wEmbedded> = Vec::new();
    assert(embedded_models(embedded@) =~= Seq::<EmbeddedModel>::empty());
    while embedded.len() < table.item_count as usize
        invariant
            embedded_from(bytes@, table, import_models(imports@), seq![]) == embedded_from(
                bytes@,
                table,
                import_models(imports@),
                embedded_models(embedded@),
            ),
        decreases table.item_count - embedded@.len(),
    {
        let at: usize = match item_at(bytes, table, embedded.len(), 16, 16) {
            Some(at) => at,
            None => return Err(Cr2wError::Truncated),
        };
        let import_index: u32 = get_u32(bytes, at);
        if import_index == 0 || import_index as usize > imports.len() {
            return Err(Cr2wError::InvalidImport { import: embedded.len() });
        }
        let k: usize = import_index as usize - 1;
        assert(import_models(imports@)[k as int] == imports@[k as int]@);
        let item: Cr2wEmbedded = Cr2wEmbedded {
            import_index,
            chunk_index: get_u32(bytes, at + 4),
            path_hash: get_u64(bytes, at + 8),
            depot_path: imports[k].depot_path.clone(),
        };
        proof {
            assert(embedded_models(embedded@.push(item)) =~= embedded_models(embedded@).push(
                item@,
            ));
        }
        embedded.push(item);
    }
    Ok(embedded)
}

fn read_header(bytes: &[u8]) -> (result: Cr2wHeader)
    requires
        bytes@.len() >= 160,
    ensures
        result@ == header_of(bytes@),
{
    let mut tables: Vec<Cr2wTable> = Vec::new();
    while tables.len() < TABLE_COUNT
        invariant
            bytes@.len() >= 160,
            tables@.len() <= TABLE_COUNT,
            forall|i: int|
                0 <= i < tables@.len() ==> #[trigger] tables@[i] == table_at(
                    bytes@,
                    (40 + 12 * i) as nat,
                ),
        decreases TABLE_COUNT - tables@.len(),
    {
        let at: usize = 40 + 12 * tables.len();
        tables.push(
            Cr2wTable {
                offset: get_u32(bytes, at),
                item_count: get_u32(bytes, at + 4),
                crc32: get_u32(bytes, at + 8),
            },
        );
    }
    assert(tables@ =~= header_of(bytes@).tables);
    Cr2wHeader {
        version: get_u32(bytes, 4),
        flags: get_u32(bytes, 8),
        timestamp: get_u64(bytes, 12),
        build_version: get_u32(bytes, 20),
        objects_end: get_u32(bytes, 24),
        buffers_end: get_u32(bytes, 28),
        crc32: get_u32(bytes, 32),
        chunk_count: get_u32(bytes, 36),
        tables,
    }
}

/// Finds the first table that is outside the file.
fn validate_tables(tables: &[Cr2wTable], size: usize) -> (result: Option<usize>)
    ensures
        match bad_table(tables@, size as nat, 0) {
            None => result is None,
            Some(i) => result matches Some(r) && r == i,
        },
{
    let mut i: usize = 0;
    while i < tables.len()
        invariant
            i <= tables@.len(),
            bad_table(tables@, size as nat, 0) == bad_table(tables@, size as nat, i as nat),
        decreases tables@.len() - i,
    {
        if tables[i].offset as u64 > size as u64 {
            return Some(i);
        }
        i = i + 1;
    }
    None
}

/// There are always ten tables.
pub proof fn lemma_tables(bytes: Seq<u8>)
    ensures
        inspection(bytes) matches Ok(model) ==> model.header.tables.len() == TABLE_COUNT,
{
}

/// Reads a CR2W header, its table descriptors and the tables.
pub fn inspect(bytes: &[u8]) -> (result: Result<Cr2wInspection, Cr2wError>)
    ensures
        match inspection(bytes@) {
            Err(error) => result matches Err(e) && e == error,
            Ok(model) => result matches Ok(r) && r@ == model,
        },
{
    if bytes.len() < 4 {
        return Err(Cr2wError::Truncated);
    }
    let magic: u32 = get_u32(bytes, 0);
    if magic != CR2W_MAGIC {
        return Err(Cr2wError::InvalidMagic { actual: magic });
    }
    if bytes.len() < 160 {
        return Err(Cr2wError::Truncated);
    }
    let header: Cr2wHeader = read_header(bytes);
    if let Some(table) = validate_tables(&header.tables, bytes.len()) {
        return Err(Cr2wError::InvalidTable { table });
    }
    let strings: Vec<Cr2wString> = match read_strings(bytes, header.tables[0]) {
        Ok(strings) => strings,
        Err(error) => return Err(error),
    };
    let names: Vec<Cr2wName> = match read_names(bytes, header.tables[1], &strings) {
        Ok(names) => names,
        Err(error) => return Err(error),
    };
    let imports: Vec<Cr2wImport> = match read_imports(bytes, header.tables[2], &strings, &names) {
        Ok(imports) => imports,
        Err(error) => return Err(error),
    };
    let exports: Vec<Cr2wExport> = match read_exports(bytes, header.tables[4], &names) {
        Ok(exports) => exports,
        Err(error) => return Err(error),
    };
    let buffers: Vec<Cr2wBuffer> = match read_buffers(bytes, header.tables[5]) {
        Ok(buffers) => buffers,
        Err(error) => return Err(error),
    };
    let embedded: Vec<Cr2wEmbedded> = match read_embedded(bytes, header.tables[6], &imports) {
        Ok(embedded) => embedded,
        Err(error) => return Err(error),
    };
    Ok(Cr2wInspection { header, strings, names, imports, exports, buffers, embedded })
}

} // verus!
