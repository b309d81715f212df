//! The tables of a package that was put together are read back.

use crate::archive;
use crate::binary;
use crate::redpackage;
use crate::redpackage::{Fault, ImportModel, LayoutModel, PathModel};
use crate::redpackage_build;
use crate::redpackage_pools::State;
use crate::sequence;
use vstd::prelude::*;
use vstd::utf8;

verus! {

/// The name of a descriptor is read back.
proof fn lemma_name(bytes: Seq<u8>, base: nat, offset: nat, name: Seq<char>)
    requires
        offset < 0x100_0000,
        utf8::encode_utf8(name).len() + 1 <= 0xff,
        sequence::stands(bytes, base + offset, utf8::encode_utf8(name) + seq![0u8]),
        bytes.len() <= usize::MAX,
    ensures
        redpackage::name_at(
            bytes,
            base,
            offset + (utf8::encode_utf8(name).len() + 1) * 0x100_0000,
        ) == Ok::<Seq<char>, Fault>(name),
{
    let content = utf8::encode_utf8(name);
    let size = content.len() + 1;
    let bits = offset + size * 0x100_0000;
    let start = base + offset;
    assert(bits / 0x100_0000 == size);
    assert(bits % 0x100_0000 == offset);
    sequence::lemma_stands_split(bytes, start, content, seq![0u8]);
    sequence::lemma_stands_index(bytes, start + content.len(), seq![0u8], 0);
    assert(bytes.subrange(start as int, (start + size - 1) as int) =~= content);
    utf8::encode_utf8_valid_utf8(name);
    utf8::encode_utf8_decode_utf8(name);
}

/// The names of a pool are read back.
proof fn lemma_names(
    bytes: Seq<u8>,
    names: Seq<Seq<char>>,
    i: nat,
    base: nat,
    start: nat,
    descriptors: Seq<u8>,
    data: Seq<u8>,
    pool: Seq<u8>,
)
    requires
        i <= names.len(),
        descriptors.len() == 4 * i,
        redpackage_build::name_pool(
            names,
            i,
            base,
            start + names.len() * 4,
            descriptors,
            data,
        ) == Ok::<Seq<u8>, Fault>(pool),
        sequence::stands(bytes, base + start, pool),
        bytes.len() <= usize::MAX,
    ensures
        sequence::stands(pool, 0, descriptors),
        sequence::stands(pool, names.len() * 4, data),
        redpackage::names_from(
            bytes,
            base,
            base + start + 4 * i,
            (names.len() - i) as nat,
            names.subrange(0, i as int),
        ) == Ok::<Seq<Seq<char>>, Fault>(names),
    decreases names.len() - i,
{
    if i >= names.len() {
        assert(pool.subrange(0, descriptors.len() as int) =~= descriptors);
        assert(pool.subrange(
            (names.len() * 4) as int,
            (names.len() * 4 + data.len()) as int,
        ) =~= data);
        assert(names.subrange(0, i as int) =~= names);
    } else {
        let name = names[i as int];
        let content = utf8::encode_utf8(name);
        let offset = start + names.len() * 4 + data.len();
        let bits = offset + (content.len() + 1) * 0x100_0000;
        let word = binary::le_bytes(bits, 4);
        binary::lemma_le_bytes_len(bits, 4);
        binary::lemma_byte_ranges();
        lemma_names(
            bytes,
            names,
            i + 1,
            base,
            start,
            descriptors + word,
            data + content + seq![0u8],
            pool,
        );
        assert(data + content + seq![0u8] =~= data + (content + seq![0u8]));
        sequence::lemma_stands_split(pool, 0, descriptors, word);
        sequence::lemma_stands_split(pool, names.len() * 4, data, content + seq![0u8]);
        sequence::lemma_stands_within(bytes, base + start, pool, 4 * i, word);
        sequence::lemma_stands_within(
            bytes,
            base + start,
            pool,
            names.len() * 4 + data.len(),
            content + seq![0u8],
        );
        binary::lemma_number_stands(bytes, base + start + 4 * i, bits, 4);
        assert(base + start + (names.len() * 4 + data.len()) == base + offset);
        lemma_name(bytes, base, offset, name);
        assert(names.subrange(0, i as int).push(name) =~= names.subrange(0, (i + 1) as int));
    }
}

/// What an import is read back as: where hashes are stored, a path comes back
/// as its hash.
pub open spec fn stored(import: ImportModel, hashed: bool) -> ImportModel {
    match import.path {
        PathModel::Text(path) if hashed => ImportModel {
            path: PathModel::Hash(archive::depot_hash(path)),
            soft: import.soft,
        },
        _ => import,
    }
}

/// What imports are read back as.
pub open spec fn stored_imports(imports: Seq<ImportModel>, hashed: bool) -> Seq<ImportModel> {
    imports.map_values(|import: ImportModel| stored(import, hashed))
}

/// Whether imports can be stored: without hashes there are only paths.
pub open spec fn storable(imports: Seq<ImportModel>, hashed: bool) -> bool {
    forall|i: int| 0 <= i < imports.len() ==> hashed || (#[trigger] imports[i]).path is Text
}

/// The import of a descriptor is read back.
proof fn lemma_import(bytes: Seq<u8>, base: nat, offset: nat, import: ImportModel, hashed: bool)
    requires
        offset < 0x80_0000,
        redpackage_build::import_bytes(import, hashed).len() <= 0xff,
        sequence::stands(bytes, base + offset, redpackage_build::import_bytes(import, hashed)),
        bytes.len() <= usize::MAX,
        hashed || import.path is Text,
    ensures
        redpackage::import_at(
            bytes,
            base,
            offset + redpackage_build::import_bytes(import, hashed).len() * 0x80_0000
                + redpackage_build::bit(import.soft) * 0x8000_0000,
            hashed,
        ) == Ok::<ImportModel, Fault>(stored(import, hashed)),
{
    let content = redpackage_build::import_bytes(import, hashed);
    let size = content.len();
    let bits = offset + size * 0x80_0000 + redpackage_build::bit(import.soft) * 0x8000_0000;
    let start = base + offset;
    assert((bits / 0x80_0000) % 0x100 == size);
    assert(bits % 0x80_0000 == offset);
    assert((bits / 0x8000_0000 != 0) == import.soft);
    if hashed {
        let hash: nat = match import.path {
            PathModel::Text(path) => archive::depot_hash(path) as nat,
            PathModel::Hash(hash) => hash as nat,
        };
        binary::lemma_byte_ranges();
        binary::lemma_le_bytes_len(hash, 8);
        binary::lemma_number_stands(bytes, start, hash, 8);
    } else {
        let path = import.path->Text_0;
        assert(bytes.subrange(start as int, (start + size) as int) =~= content);
        utf8::encode_utf8_valid_utf8(path);
        utf8::encode_utf8_decode_utf8(path);
    }
}

/// The imports of a pool are read back.
proof fn lemma_imports(
    bytes: Seq<u8>,
    imports: Seq<ImportModel>,
    i: nat,
    hashed: bool,
    base: nat,
    descriptors: Seq<u8>,
    data: Seq<u8>,
    pool: Seq<u8>,
)
    requires
        i <= imports.len(),
        descriptors.len() == 4 * i,
        redpackage_build::import_pool(
            imports,
            i,
            hashed,
            base,
            imports.len() * 4,
            descriptors,
            data,
        ) == Ok::<Seq<u8>, Fault>(pool),
        sequence::stands(bytes, base, pool),
        bytes.len() <= usize::MAX,
        storable(imports, hashed),
    ensures
        sequence::stands(pool, 0, descriptors),
        sequence::stands(pool, imports.len() * 4, data),
        redpackage::imports_from(
            bytes,
            base,
            base + 4 * i,
            (imports.len() - i) as nat,
            hashed,
            stored_imports(imports, hashed).subrange(0, i as int),
        ) == Ok::<Seq<ImportModel>, Fault>(stored_imports(imports, hashed)),
    decreases imports.len() - i,
{
    let all = stored_imports(imports, hashed);
    if i >= imports.len() {
        assert(pool.subrange(0, descriptors.len() as int) =~= descriptors);
        assert(pool.subrange(
            (imports.len() * 4) as int,
            (imports.len() * 4 + data.len()) as int,
        ) =~= data);
        assert(all.subrange(0, i as int) =~= all);
    } else {
        let import = imports[i as int];
        let content = redpackage_build::import_bytes(import, hashed);
        let offset = imports.len() * 4 + data.len();
        let bits = offset + content.len() * 0x80_0000 + redpackage_build::bit(import.soft)
            * 0x8000_0000;
        let word = binary::le_bytes(bits, 4);
        binary::lemma_le_bytes_len(bits, 4);
        binary::lemma_byte_ranges();
        lemma_imports(
            bytes,
            imports,
            i + 1,
            hashed,
            base,
            descriptors + word,
            data + content,
            pool,
        );
        sequence::lemma_stands_split(pool, 0, descriptors, word);
        sequence::lemma_stands_split(pool, imports.len() * 4, data, content);
        sequence::lemma_stands_within(bytes, base, pool, 4 * i, word);
        sequence::lemma_stands_within(bytes, base, pool, offset, content);
        binary::lemma_number_stands(bytes, base + 4 * i, bits, 4);
        lemma_import(bytes, base, offset, import, hashed);
        assert(all.subrange(0, i as int).push(stored(import, hashed)) =~= all.subrange(0, (i + 1) as int));
    }
}

/// The chunks that a table is written from.
pub open spec fn placed_chunks(
    chunks: Seq<(nat, nat)>,
    templates: Seq<nat>,
    offsets: Seq<nat>,
    start: nat,
) -> Seq<(nat, nat)> {
    Seq::new(
        templates.len(),
        |i: int| (chunks[templates[i] as int].0, start + offsets[i]),
    )
}

/// The chunks of a table are read back.
proof fn lemma_chunks(
    bytes: Seq<u8>,
    chunks: Seq<(nat, nat)>,
    templates: Seq<nat>,
    offsets: Seq<nat>,
    i: nat,
    base: nat,
    start: nat,
    data_start: nat,
    before: Seq<u8>,
    table: Seq<u8>,
)
    requires
        i <= templates.len(),
        before.len() == 8 * i,
        redpackage_build::chunk_table(
            chunks,
            templates,
            offsets,
            i,
            base,
            start,
            data_start,
            before,
        ) == Ok::<Seq<u8>, Fault>(table),
        sequence::stands(bytes, base + start, table),
        forall|k: int|
            0 <= k < templates.len() ==> base + data_start + #[trigger] offsets[k] <= usize::MAX,
    ensures
        sequence::stands(table, 0, before),
        table.len() == 8 * templates.len(),
        redpackage::chunks_from(
            bytes,
            base,
            base + start + 8 * i,
            (templates.len() - i) as nat,
            placed_chunks(chunks, templates, offsets, base + data_start).subrange(0, i as int),
        ) == Ok::<Seq<(nat, nat)>, Fault>(
            placed_chunks(chunks, templates, offsets, base + data_start),
        ),
    decreases templates.len() - i,
{
    let all = placed_chunks(chunks, templates, offsets, base + data_start);
    if i >= templates.len() {
        assert(table.subrange(0, before.len() as int) =~= before);
        assert(all.subrange(0, i as int) =~= all);
    } else {
        let kind = chunks[templates[i as int] as int].0;
        let relative = data_start + offsets[i as int];
        let first = binary::le_bytes(kind, 4);
        let second = binary::le_bytes(relative, 4);
        binary::lemma_le_bytes_len(kind, 4);
        binary::lemma_le_bytes_len(relative, 4);
        binary::lemma_byte_ranges();
        assert(before + first + second =~= before + (first + second));
        lemma_chunks(
            bytes,
            chunks,
            templates,
            offsets,
            i + 1,
            base,
            start,
            data_start,
            before + first + second,
            table,
        );
        sequence::lemma_stands_split(table, 0, before, first + second);
        sequence::lemma_stands_split(table, 8 * i, first, second);
        sequence::lemma_stands_within(bytes, base + start, table, 8 * i, first);
        sequence::lemma_stands_within(bytes, base + start, table, 8 * i + 4, second);
        binary::lemma_number_stands(bytes, base + start + 8 * i, kind, 4);
        binary::lemma_number_stands(bytes, base + start + 8 * i + 4, relative, 4);
        assert(all[i as int] == (kind, base + relative));
        assert(all.subrange(0, i as int).push((kind, base + relative)) =~= all.subrange(0, (i + 1) as int));
    }
}

/// A table has eight bytes for each chunk.
proof fn lemma_table_len(
    chunks: Seq<(nat, nat)>,
    templates: Seq<nat>,
    offsets: Seq<nat>,
    i: nat,
    base: nat,
    start: nat,
    data_start: nat,
    before: Seq<u8>,
    table: Seq<u8>,
)
    requires
        i <= templates.len(),
        before.len() == 8 * i,
        redpackage_build::chunk_table(
            chunks,
            templates,
            offsets,
            i,
            base,
            start,
            data_start,
            before,
        ) == Ok::<Seq<u8>, Fault>(table),
    ensures
        table.len() == 8 * templates.len(),
    decreases templates.len() - i,
{
    if i < templates.len() {
        let kind = chunks[templates[i as int] as int].0;
        let relative = data_start + offsets[i as int];
        binary::lemma_le_bytes_len(kind, 4);
        binary::lemma_le_bytes_len(relative, 4);
        lemma_table_len(
            chunks,
            templates,
            offsets,
            i + 1,
            base,
            start,
            data_start,
            before + binary::le_bytes(kind, 4) + binary::le_bytes(relative, 4),
            table,
        );
    }
}

/// The fields of a header are read back.
proof fn lemma_header(
    bytes: Seq<u8>,
    layout: LayoutModel,
    components: nat,
    imports: nat,
    starts: redpackage_build::SectionStarts,
)
    requires
        layout.version < 0x100,
        layout.unknown1 < 0x100,
        layout.sections < 0x1_0000,
        imports * 4 < 0x1_0000_0000,
        starts.name_desc < 0x1_0000_0000,
        starts.name_data < 0x1_0000_0000,
        starts.chunk_desc < 0x1_0000_0000,
        starts.chunk_data < 0x1_0000_0000,
        sequence::stands(
            bytes,
            0,
            redpackage_build::header(layout, components, imports, starts),
        ),
    ensures
        redpackage_build::header(layout, components, imports, starts).len()
            == redpackage::header_size(layout.sections),
        redpackage::byte_at(bytes, 0) == Ok::<nat, Fault>(layout.version),
        redpackage::byte_at(bytes, 1) == Ok::<nat, Fault>(layout.unknown1),
        redpackage::number(bytes, 2, 2) == Ok::<nat, Fault>(layout.sections),
        redpackage::section_offsets(bytes, layout.sections) == Ok::<
            (nat, nat, nat, nat, nat, nat),
            Fault,
        >(
            if layout.sections == 7 {
                (
                    0nat,
                    imports * 4,
                    starts.name_desc,
                    starts.name_data,
                    starts.chunk_desc,
                    starts.chunk_data,
                )
            } else {
                (
                    0nat,
                    0nat,
                    starts.name_desc,
                    starts.name_data,
                    starts.chunk_desc,
                    starts.chunk_data,
                )
            },
        ),
{
    binary::lemma_byte_ranges();
    let pair = seq![layout.version as u8, layout.unknown1 as u8];
    let sections = binary::le_bytes(layout.sections, 2);
    let parts = binary::le_bytes(components, 4);
    let zero = binary::le_bytes(0, 4);
    let count = binary::le_bytes(imports * 4, 4);
    let references = if layout.sections == 7 {
        zero + count
    } else {
        Seq::empty()
    };
    let a = binary::le_bytes(starts.name_desc, 4);
    let b = binary::le_bytes(starts.name_data, 4);
    let c = binary::le_bytes(starts.chunk_desc, 4);
    let d = binary::le_bytes(starts.chunk_data, 4);
    binary::lemma_le_bytes_len(layout.sections, 2);
    binary::lemma_le_bytes_len(components, 4);
    binary::lemma_le_bytes_len(0, 4);
    binary::lemma_le_bytes_len(imports * 4, 4);
    binary::lemma_le_bytes_len(starts.name_desc, 4);
    binary::lemma_le_bytes_len(starts.name_data, 4);
    binary::lemma_le_bytes_len(starts.chunk_desc, 4);
    binary::lemma_le_bytes_len(starts.chunk_data, 4);
    let front = pair + sections + parts;
    let at = front.len() + references.len();
    sequence::lemma_stands_split(bytes, 0, front + references + a + b + c, d);
    sequence::lemma_stands_split(bytes, 0, front + references + a + b, c);
    sequence::lemma_stands_split(bytes, 0, front + references + a, b);
    sequence::lemma_stands_split(bytes, 0, front + references, a);
    sequence::lemma_stands_split(bytes, 0, front, references);
    sequence::lemma_stands_split(bytes, 0, pair + sections, parts);
    sequence::lemma_stands_split(bytes, 0, pair, sections);
    sequence::lemma_stands_index(bytes, 0, pair, 0);
    sequence::lemma_stands_index(bytes, 0, pair, 1);
    binary::lemma_number_stands(bytes, 2, layout.sections, 2);
    binary::lemma_number_stands(bytes, at, starts.name_desc, 4);
    binary::lemma_number_stands(bytes, at + 4, starts.name_data, 4);
    binary::lemma_number_stands(bytes, at + 8, starts.chunk_desc, 4);
    binary::lemma_number_stands(bytes, at + 12, starts.chunk_data, 4);
    if layout.sections == 7 {
        sequence::lemma_stands_split(bytes, 8, zero, count);
        binary::lemma_number_stands(bytes, 8, 0, 4);
        binary::lemma_number_stands(bytes, 12, imports * 4, 4);
    }
}

/// What the layout of a template says of its bytes.
proof fn lemma_template(template: Seq<u8>, layout: LayoutModel, hashed: bool)
    requires
        redpackage::layout_of(template, hashed) == Ok::<LayoutModel, Fault>(layout),
    ensures
        layout.version < 0x100,
        layout.unknown1 < 0x100,
        layout.sections < 0x1_0000,
        layout.header_size == redpackage::header_size(layout.sections),
        layout.header_size + 4 <= layout.base,
        layout.header_size + 4 <= template.len(),
        redpackage::number(template, layout.header_size + 2, 2) is Ok,
        layout.base == layout.header_size + 4 + redpackage::number(
            template,
            layout.header_size + 2,
            2,
        )->Ok_0 * 8,
{
    binary::lemma_byte_ranges();
    binary::law_write_read(template.subrange(2, 4));
}

/// The tables of a package that was put together are read back: the same head,
/// the names as they were gathered, the imports as they are stored, and each
/// chunk with its type and at its place behind the tables.
pub proof fn law_read_built(
    template: Seq<u8>,
    layout: LayoutModel,
    state: State,
    templates: Seq<nat>,
    offsets: Seq<nat>,
    data: Seq<u8>,
    hashed: bool,
    bytes: Seq<u8>,
)
    requires
        redpackage::layout_of(template, hashed) == Ok::<LayoutModel, Fault>(layout),
        redpackage_build::built(template, layout, state, templates, offsets, data, hashed) == Ok::<
            Seq<u8>,
            Fault,
        >(bytes),
        storable(state.imports, hashed),
        offsets.len() == templates.len(),
        forall|i: int| 0 <= i < offsets.len() ==> #[trigger] offsets[i] <= data.len(),
        bytes.len() <= usize::MAX,
    ensures
        redpackage::layout_of(bytes, hashed) == Ok::<LayoutModel, Fault>(
            LayoutModel {
                version: layout.version,
                unknown1: layout.unknown1,
                sections: layout.sections,
                header_size: layout.header_size,
                base: layout.base,
                names: state.names,
                imports: stored_imports(state.imports, hashed),
                chunks: placed_chunks(
                    layout.chunks,
                    templates,
                    offsets,
                    (bytes.len() - data.len()) as nat,
                ),
            },
        ),
        sequence::stands(bytes, (bytes.len() - data.len()) as nat, data),
        redpackage::number(bytes, 4, 4) is Ok,
        layout.header_size + 4 <= layout.base <= template.len(),
        sequence::stands(
            bytes,
            layout.header_size,
            template.subrange(layout.header_size as int, layout.base as int),
        ),
{
    lemma_template(template, layout, hashed);
    let parts = take_parts(template, layout, state, templates, offsets, data, hashed, bytes);
    lemma_read_parts(template, layout, state, templates, offsets, data, hashed, bytes, parts);
}

/// The tables of a package are read back out of its parts.
#[verifier::rlimit(40)]
proof fn lemma_read_parts(
    template: Seq<u8>,
    layout: LayoutModel,
    state: State,
    templates: Seq<nat>,
    offsets: Seq<nat>,
    data: Seq<u8>,
    hashed: bool,
    bytes: Seq<u8>,
    parts: Parts,
)
    requires
        layout.version < 0x100,
        layout.unknown1 < 0x100,
        layout.sections < 0x1_0000,
        layout.header_size == redpackage::header_size(layout.sections),
        layout.header_size + 4 <= layout.base <= template.len(),
        redpackage::number(template, layout.header_size + 2, 2) is Ok,
        layout.base == layout.header_size + 4 + redpackage::number(
            template,
            layout.header_size + 2,
            2,
        )->Ok_0 * 8,
        layout.sections == 7 || state.imports.len() == 0,
        state.imports.len() <= 0x100_0000,
        redpackage_build::import_pool(
            state.imports,
            0,
            hashed,
            layout.base,
            state.imports.len() * 4,
            Seq::empty(),
            Seq::empty(),
        ) == Ok::<Seq<u8>, Fault>(parts.imports),
        redpackage_build::name_pool(
            state.names,
            0,
            layout.base,
            parts.imports.len() + state.names.len() * 4,
            Seq::empty(),
            Seq::empty(),
        ) == Ok::<Seq<u8>, Fault>(parts.names),
        redpackage_build::chunk_table(
            layout.chunks,
            templates,
            offsets,
            0,
            layout.base,
            parts.imports.len() + parts.names.len(),
            parts.imports.len() + parts.names.len() + templates.len() * 8,
            Seq::empty(),
        ) == Ok::<Seq<u8>, Fault>(parts.table),
        parts.imports.len() + state.names.len() * 4 <= 0xffff_ffff,
        parts.imports.len() + parts.names.len() + templates.len() * 8 <= 0xffff_ffff,
        parts.head == redpackage_build::header(
            layout,
            parts.components,
            state.imports.len(),
            section_starts(parts, state, templates),
        ),
        parts.ids == template.subrange(layout.header_size as int, layout.base as int),
        bytes == parts.head + parts.ids + parts.imports + parts.names + parts.table + data,
        storable(state.imports, hashed),
        offsets.len() == templates.len(),
        forall|i: int| 0 <= i < offsets.len() ==> #[trigger] offsets[i] <= data.len(),
        bytes.len() <= usize::MAX,
    ensures
        redpackage::layout_of(bytes, hashed) == Ok::<LayoutModel, Fault>(
            LayoutModel {
                names: state.names,
                imports: stored_imports(state.imports, hashed),
                chunks: placed_chunks(
                    layout.chunks,
                    templates,
                    offsets,
                    (bytes.len() - data.len()) as nat,
                ),
                ..layout
            },
        ),
        sequence::stands(bytes, (bytes.len() - data.len()) as nat, data),
        redpackage::number(bytes, 4, 4) is Ok,
        layout.header_size + 4 <= layout.base <= template.len(),
        sequence::stands(
            bytes,
            layout.header_size,
            template.subrange(layout.header_size as int, layout.base as int),
        ),
{
    let base = layout.base;
    let starts = section_starts(parts, state, templates);
    lemma_sections(parts.head, parts.ids, parts.imports, parts.names, parts.table, data);
    lemma_table_len(
        layout.chunks,
        templates,
        offsets,
        0,
        base,
        starts.chunk_desc,
        starts.chunk_data,
        Seq::empty(),
        parts.table,
    );
    lemma_pool_len(
        state.names,
        0,
        base,
        starts.name_data,
        Seq::empty(),
        Seq::empty(),
        parts.names,
    );
    lemma_header(bytes, layout, parts.components, state.imports.len(), starts);
    assert(parts.head.len() + parts.ids.len() == base);
    assert(bytes.len() - data.len() == base + starts.chunk_data);
    lemma_ids(template, bytes, layout.header_size, base);
    lemma_tables(
        bytes,
        layout.chunks,
        state,
        templates,
        offsets,
        base,
        hashed,
        parts.imports,
        parts.names,
        parts.table,
    );
    if layout.sections != 7 {
        assert(stored_imports(state.imports, hashed) =~= Seq::empty());
    }
    lemma_layout(
        bytes,
        layout,
        hashed,
        starts,
        state.imports.len(),
        (
            stored_imports(state.imports, hashed),
            state.names,
            placed_chunks(layout.chunks, templates, offsets, base + starts.chunk_data),
        ),
    );
}

/// The parts of a package.
ghost struct Parts {
    head: Seq<u8>,
    ids: Seq<u8>,
    imports: Seq<u8>,
    names: Seq<u8>,
    table: Seq<u8>,
    components: nat,
}

/// Where the sections of a package start.
spec fn section_starts(
    parts: Parts,
    state: State,
    templates: Seq<nat>,
) -> redpackage_build::SectionStarts {
    redpackage_build::SectionStarts {
        name_desc: parts.imports.len(),
        name_data: parts.imports.len() + state.names.len() * 4,
        chunk_desc: parts.imports.len() + parts.names.len(),
        chunk_data: parts.imports.len() + parts.names.len() + templates.len() * 8,
    }
}

/// Takes a package apart.
#[verifier::rlimit(40)]
proof fn take_parts(
    template: Seq<u8>,
    layout: LayoutModel,
    state: State,
    templates: Seq<nat>,
    offsets: Seq<nat>,
    data: Seq<u8>,
    hashed: bool,
    bytes: Seq<u8>,
) -> (parts: Parts)
    requires
        redpackage_build::built(template, layout, state, templates, offsets, data, hashed) == Ok::<
            Seq<u8>,
            Fault,
        >(bytes),
    ensures
        layout.sections == 7 || state.imports.len() == 0,
        state.imports.len() <= 0x100_0000,
        layout.header_size <= layout.base <= template.len(),
        redpackage_build::import_pool(
            state.imports,
            0,
            hashed,
            layout.base,
            state.imports.len() * 4,
            Seq::empty(),
            Seq::empty(),
        ) == Ok::<Seq<u8>, Fault>(parts.imports),
        redpackage_build::name_pool(
            state.names,
            0,
            layout.base,
            parts.imports.len() + state.names.len() * 4,
            Seq::empty(),
            Seq::empty(),
        ) == Ok::<Seq<u8>, Fault>(parts.names),
        redpackage_build::chunk_table(
            layout.chunks,
            templates,
            offsets,
            0,
            layout.base,
            parts.imports.len() + parts.names.len(),
            parts.imports.len() + parts.names.len() + templates.len() * 8,
            Seq::empty(),
        ) == Ok::<Seq<u8>, Fault>(parts.table),
        parts.imports.len() + state.names.len() * 4 <= 0xffff_ffff,
        parts.imports.len() + parts.names.len() + templates.len() * 8 <= 0xffff_ffff,
        parts.head == redpackage_build::header(
            layout,
            parts.components,
            state.imports.len(),
            section_starts(parts, state, templates),
        ),
        parts.ids == template.subrange(layout.header_size as int, layout.base as int),
        bytes == parts.head + parts.ids + parts.imports + parts.names + parts.table + data,
{
    let none: Seq<u8> = Seq::empty();
    let imports = redpackage_build::import_pool(
        state.imports,
        0,
        hashed,
        layout.base,
        state.imports.len() * 4,
        none,
        none,
    )->Ok_0;
    let names = redpackage_build::name_pool(
        state.names,
        0,
        layout.base,
        imports.len() + state.names.len() * 4,
        none,
        none,
    )->Ok_0;
    let table = redpackage_build::chunk_table(
        layout.chunks,
        templates,
        offsets,
        0,
        layout.base,
        imports.len() + names.len(),
        imports.len() + names.len() + templates.len() * 8,
        none,
    )->Ok_0;
    let components = redpackage::number(template, 4, 4)->Ok_0;
    let parts = Parts {
        head: none,
        ids: template.subrange(layout.header_size as int, layout.base as int),
        imports,
        names,
        table,
        components,
    };
    Parts {
        head: redpackage_build::header(
            layout,
            components,
            state.imports.len(),
            section_starts(parts, state, templates),
        ),
        ..parts
    }
}

/// A layout is put together of what is read.
proof fn lemma_layout(
    bytes: Seq<u8>,
    layout: LayoutModel,
    hashed: bool,
    starts: redpackage_build::SectionStarts,
    imports: nat,
    found: (Seq<ImportModel>, Seq<Seq<char>>, Seq<(nat, nat)>),
)
    requires
        layout.header_size == redpackage::header_size(layout.sections),
        redpackage::byte_at(bytes, 0) == Ok::<nat, Fault>(layout.version),
        redpackage::byte_at(bytes, 1) == Ok::<nat, Fault>(layout.unknown1),
        redpackage::number(bytes, 2, 2) == Ok::<nat, Fault>(layout.sections),
        redpackage::section_offsets(bytes, layout.sections) == Ok::<
            (nat, nat, nat, nat, nat, nat),
            Fault,
        >(
            (
                0nat,
                if layout.sections == 7 {
                    imports * 4
                } else {
                    0nat
                },
                starts.name_desc,
                starts.name_data,
                starts.chunk_desc,
                starts.chunk_data,
            ),
        ),
        redpackage::number(bytes, layout.header_size + 2, 2) is Ok,
        layout.base == layout.header_size + 4 + redpackage::number(
            bytes,
            layout.header_size + 2,
            2,
        )->Ok_0 * 8,
        redpackage::imports_of(
            bytes,
            layout.base,
            0,
            if layout.sections == 7 {
                imports * 4
            } else {
                0nat
            },
            hashed,
        ) == Ok::<Seq<ImportModel>, Fault>(found.0),
        redpackage::names_of(bytes, layout.base, starts.name_desc, starts.name_data) == Ok::<
            Seq<Seq<char>>,
            Fault,
        >(found.1),
        redpackage::chunks_of(bytes, layout.base, starts.chunk_desc, starts.chunk_data) == Ok::<
            Seq<(nat, nat)>,
            Fault,
        >(found.2),
    ensures
        redpackage::layout_of(bytes, hashed) == Ok::<LayoutModel, Fault>(
            LayoutModel { imports: found.0, names: found.1, chunks: found.2, ..layout },
        ),
{
}

/// The sections of a package stand one behind the other.
proof fn lemma_sections(
    head: Seq<u8>,
    ids: Seq<u8>,
    imports: Seq<u8>,
    names: Seq<u8>,
    table: Seq<u8>,
    data: Seq<u8>,
)
    ensures
        ({
            let bytes = head + ids + imports + names + table + data;
            let base = head.len() + ids.len();
            &&& sequence::stands(bytes, 0, head)
            &&& sequence::stands(bytes, head.len(), ids)
            &&& sequence::stands(bytes, base, imports)
            &&& sequence::stands(bytes, base + imports.len(), names)
            &&& sequence::stands(bytes, base + imports.len() + names.len(), table)
            &&& sequence::stands(bytes, base + imports.len() + names.len() + table.len(), data)
            &&& bytes.len() == base + imports.len() + names.len() + table.len() + data.len()
        }),
{
    let bytes = head + ids + imports + names + table + data;
    assert(bytes.subrange(0, bytes.len() as int) =~= bytes);
    sequence::lemma_stands_split(bytes, 0, head + ids + imports + names + table, data);
    sequence::lemma_stands_split(bytes, 0, head + ids + imports + names, table);
    sequence::lemma_stands_split(bytes, 0, head + ids + imports, names);
    sequence::lemma_stands_split(bytes, 0, head + ids, imports);
    sequence::lemma_stands_split(bytes, 0, head, ids);
}

/// The part that is taken over from a template reads as it did there.
proof fn lemma_ids(template: Seq<u8>, bytes: Seq<u8>, start: nat, base: nat)
    requires
        start + 4 <= base <= template.len(),
        sequence::stands(bytes, start, template.subrange(start as int, base as int)),
    ensures
        redpackage::number(bytes, start + 2, 2) == redpackage::number(template, start + 2, 2),
{
    let ids = template.subrange(start as int, base as int);
    sequence::lemma_stands_index(bytes, start, ids, 2);
    sequence::lemma_stands_index(bytes, start, ids, 3);
    let at = (start + 2) as int;
    assert(bytes.subrange(at, at + 2) =~= template.subrange(at, at + 2));
}

/// The tables that stand in a package are read back.
proof fn lemma_tables(
    bytes: Seq<u8>,
    chunks: Seq<(nat, nat)>,
    state: State,
    templates: Seq<nat>,
    offsets: Seq<nat>,
    base: nat,
    hashed: bool,
    imports: Seq<u8>,
    names: Seq<u8>,
    table: Seq<u8>,
)
    requires
        redpackage_build::import_pool(
            state.imports,
            0,
            hashed,
            base,
            state.imports.len() * 4,
            Seq::empty(),
            Seq::empty(),
        ) == Ok::<Seq<u8>, Fault>(imports),
        redpackage_build::name_pool(
            state.names,
            0,
            base,
            imports.len() + state.names.len() * 4,
            Seq::empty(),
            Seq::empty(),
        ) == Ok::<Seq<u8>, Fault>(names),
        redpackage_build::chunk_table(
            chunks,
            templates,
            offsets,
            0,
            base,
            imports.len() + names.len(),
            imports.len() + names.len() + templates.len() * 8,
            Seq::empty(),
        ) == Ok::<Seq<u8>, Fault>(table),
        sequence::stands(bytes, base, imports),
        sequence::stands(bytes, base + imports.len(), names),
        sequence::stands(bytes, base + imports.len() + names.len(), table),
        forall|k: int|
            0 <= k < templates.len() ==> base + imports.len() + names.len() + templates.len() * 8
                + #[trigger] offsets[k] <= usize::MAX,
        storable(state.imports, hashed),
        bytes.len() <= usize::MAX,
    ensures
        redpackage::imports_of(bytes, base, 0, state.imports.len() * 4, hashed) == Ok::<
            Seq<ImportModel>,
            Fault,
        >(stored_imports(state.imports, hashed)),
        redpackage::imports_of(bytes, base, 0, 0, hashed) == Ok::<Seq<ImportModel>, Fault>(
            Seq::empty(),
        ),
        redpackage::names_of(
            bytes,
            base,
            imports.len(),
            imports.len() + state.names.len() * 4,
        ) == Ok::<Seq<Seq<char>>, Fault>(state.names),
        redpackage::chunks_of(
            bytes,
            base,
            imports.len() + names.len(),
            imports.len() + names.len() + templates.len() * 8,
        ) == Ok::<Seq<(nat, nat)>, Fault>(
            placed_chunks(
                chunks,
                templates,
                offsets,
                base + imports.len() + names.len() + templates.len() * 8,
            ),
        ),
{
    let none: Seq<u8> = Seq::empty();
    lemma_imports(bytes, state.imports, 0, hashed, base, none, none, imports);
    assert(stored_imports(state.imports, hashed).subrange(0, 0) =~= Seq::empty());
    lemma_names(bytes, state.names, 0, base, imports.len(), none, none, names);
    assert(state.names.subrange(0, 0) =~= Seq::empty());
    let start = imports.len() + names.len();
    let data_start = start + templates.len() * 8;
    assert forall|k: int| 0 <= k < templates.len() implies base + data_start
        + #[trigger] offsets[k] <= usize::MAX by {}
    lemma_chunks(
        bytes,
        chunks,
        templates,
        offsets,
        0,
        base,
        start,
        data_start,
        none,
        table,
    );
    let placed = placed_chunks(chunks, templates, offsets, base + data_start);
    assert(placed.subrange(0, 0) =~= Seq::empty());
    assert(base + data_start == base + imports.len() + names.len() + templates.len() * 8);
}

/// A pool holds at least its descriptors.
proof fn lemma_pool_len(
    names: Seq<Seq<char>>,
    i: nat,
    base: nat,
    start: nat,
    descriptors: Seq<u8>,
    data: Seq<u8>,
    pool: Seq<u8>,
)
    requires
        i <= names.len(),
        descriptors.len() == 4 * i,
        redpackage_build::name_pool(names, i, base, start, descriptors, data) == Ok::<
            Seq<u8>,
            Fault,
        >(pool),
    ensures
        pool.len() >= 4 * names.len(),
    decreases names.len() - i,
{
    if i < names.len() {
        let content = utf8::encode_utf8(names[i as int]);
        let bits = start + data.len() + (content.len() + 1) * 0x100_0000;
        binary::lemma_le_bytes_len(bits, 4);
        lemma_pool_len(
            names,
            i + 1,
            base,
            start,
            descriptors + binary::le_bytes(bits, 4),
            data + content + seq![0u8],
            pool,
        );
    }
}

/// What was written stands at the end of a package.
pub proof fn lemma_data_stands(
    template: Seq<u8>,
    layout: LayoutModel,
    state: State,
    templates: Seq<nat>,
    offsets: Seq<nat>,
    data: Seq<u8>,
    hashed: bool,
    bytes: Seq<u8>,
)
    requires
        redpackage_build::built(template, layout, state, templates, offsets, data, hashed) == Ok::<
            Seq<u8>,
            Fault,
        >(bytes),
    ensures
        data.len() <= bytes.len(),
        sequence::stands(bytes, (bytes.len() - data.len()) as nat, data),
{
    let parts = take_parts(template, layout, state, templates, offsets, data, hashed, bytes);
    lemma_sections(parts.head, parts.ids, parts.imports, parts.names, parts.table, data);
}

} // verus!
