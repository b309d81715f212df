//! The sections of RED packages, put together.

use crate::archive;
use crate::archive::depot_path_hash;
use crate::binary;
use crate::binary::{write_u16, write_u32, write_u64};
use crate::entries;
use crate::redpackage;
use crate::redpackage::{
    malformed, parse_layout, u32_at, unsupported, Import, PackageError, PackageLayout, PackagePath,
    PackageSettings,
};
use crate::redpackage_decoder;
use crate::redpackage_document;
use crate::redpackage_document::{end_of_chunk, root_chunks};
use crate::redpackage_pools;
use crate::redpackage_pools::{Encoder, Source, State};
use crate::redpackage_reader;
use crate::redpackage_reader::{Package, Reader};
use crate::redpackage_writer;
use crate::sequence::{append, part};
use crate::text::chars_of;
use crate::value;
use crate::value::{copy_text, Value};
use vstd::prelude::*;
use vstd::utf8;

verus! {

/// The bytes of an import.
pub open spec fn import_bytes(import: redpackage::ImportModel, hashed: bool) -> Seq<u8> {
    match import.path {
        redpackage::PathModel::Text(path) => if hashed {
            binary::le_bytes(archive::depot_hash(path) as nat, 8)
        } else {
            utf8::encode_utf8(path)
        },
        redpackage::PathModel::Hash(hash) => binary::le_bytes(hash as nat, 8),
    }
}

/// A number for a flag.
pub open spec fn bit(flag: bool) -> nat {
    if flag {
        1
    } else {
        0
    }
}

/// The import pool from index `i` on, behind the descriptors and the data
/// written. The data starts at an offset from the base.
pub open spec fn import_pool(
    imports: Seq<redpackage::ImportModel>,
    i: nat,
    hashed: bool,
    base: nat,
    data_start: nat,
    descriptors: Seq<u8>,
    data: Seq<u8>,
) -> Result<Seq<u8>, redpackage::Fault>
    decreases imports.len() - i,
{
    if i >= imports.len() {
        Ok(descriptors + data)
    } else {
        let offset = data_start + data.len();
        let bytes = import_bytes(imports[i as int], hashed);
        if offset > 0xffff_ffff {
            redpackage::fault(base + offset, "relative offset"@)
        } else if offset >= 0x80_0000 {
            redpackage::fault(base + offset, "import offset range"@)
        } else if bytes.len() > 0xff {
            redpackage::fault(base + offset, "import size range"@)
        } else {
            let bits = offset + bytes.len() * 0x80_0000 + bit(imports[i as int].soft)
                * 0x8000_0000;
            import_pool(
                imports,
                i + 1,
                hashed,
                base,
                data_start,
                descriptors + binary::le_bytes(bits, 4),
                data + bytes,
            )
        }
    }
}

/// The name pool from index `i` on, behind the descriptors and the data written.
pub open spec fn name_pool(
    names: Seq<Seq<char>>,
    i: nat,
    base: nat,
    data_start: nat,
    descriptors: Seq<u8>,
    data: Seq<u8>,
) -> Result<Seq<u8>, redpackage::Fault>
    decreases names.len() - i,
{
    if i >= names.len() {
        Ok(descriptors + data)
    } else {
        let offset = data_start + data.len();
        let bytes = utf8::encode_utf8(names[i as int]);
        if offset > 0xffff_ffff {
            redpackage::fault(base + offset, "relative offset"@)
        } else if offset >= 0x100_0000 {
            redpackage::fault(base + offset, "name offset range"@)
        } else if bytes.len() + 1 > 0xff {
            redpackage::fault(base + offset, "name size range"@)
        } else {
            let bits = offset + (bytes.len() + 1) * 0x100_0000;
            name_pool(
                names,
                i + 1,
                base,
                data_start,
                descriptors + binary::le_bytes(bits, 4),
                data + bytes + seq![0u8],
            )
        }
    }
}

/// The chunk table from index `i` on, behind the entries written.
pub open spec fn chunk_table(
    chunks: Seq<(nat, nat)>,
    templates: Seq<nat>,
    offsets: Seq<nat>,
    i: nat,
    base: nat,
    start: nat,
    data_start: nat,
    table: Seq<u8>,
) -> Result<Seq<u8>, redpackage::Fault>
    decreases templates.len() - i,
{
    if i >= templates.len() {
        Ok(table)
    } else {
        let entry = base + start + i * 8;
        let kind = chunks[templates[i as int] as int].0;
        if kind > 0xffff_ffff {
            redpackage::fault(entry, "chunk type index"@)
        } else if data_start + offsets[i as int] > 0xffff_ffff {
            redpackage::fault(entry, "chunk offset"@)
        } else {
            chunk_table(
                chunks,
                templates,
                offsets,
                i + 1,
                base,
                start,
                data_start,
                table + binary::le_bytes(kind, 4) + binary::le_bytes(
                    data_start + offsets[i as int],
                    4,
                ),
            )
        }
    }
}

/// The offsets of the sections from the base.
pub ghost struct SectionStarts {
    pub name_desc: nat,
    pub name_data: nat,
    pub chunk_desc: nat,
    pub chunk_data: nat,
}

/// The header of a package.
pub open spec fn header(
    layout: redpackage::LayoutModel,
    components: nat,
    imports: nat,
    starts: SectionStarts,
) -> Seq<u8> {
    let front = seq![layout.version as u8, layout.unknown1 as u8] + binary::le_bytes(
        layout.sections,
        2,
    ) + binary::le_bytes(components, 4);
    let references = if layout.sections == 7 {
        binary::le_bytes(0, 4) + binary::le_bytes(imports * 4, 4)
    } else {
        Seq::empty()
    };
    front + references + binary::le_bytes(starts.name_desc, 4) + binary::le_bytes(
        starts.name_data,
        4,
    ) + binary::le_bytes(starts.chunk_desc, 4) + binary::le_bytes(starts.chunk_data, 4)
}

/// A package out of its parts.
pub open spec fn built(
    template: Seq<u8>,
    layout: redpackage::LayoutModel,
    state: State,
    templates: Seq<nat>,
    offsets: Seq<nat>,
    data: Seq<u8>,
    hashed: bool,
) -> Result<Seq<u8>, redpackage::Fault> {
    let base = layout.base;
    if layout.sections != 7 && state.imports.len() > 0 {
        Err(redpackage::Fault::Unsupported("package section-count transition"@))
    } else if !(layout.header_size <= base <= template.len()) {
        redpackage::fault(layout.header_size, "CRUID template bounds"@)
    } else if base + state.imports.len() * 4 > usize::MAX {
        redpackage::fault(base, "import descriptors"@)
    } else {
        match import_pool(
            state.imports,
            0,
            hashed,
            base,
            state.imports.len() * 4,
            Seq::empty(),
            Seq::empty(),
        ) {
            Err(f) => Err(f),
            Ok(imports) => {
                let name_desc = imports.len();
                let name_data = name_desc + state.names.len() * 4;
                if base + name_data > usize::MAX {
                    redpackage::fault(base, "name descriptors"@)
                } else if name_data > 0xffff_ffff {
                    redpackage::fault(base + name_data, "relative offset"@)
                } else {
                    match name_pool(
                        state.names,
                        0,
                        base,
                        name_data,
                        Seq::empty(),
                        Seq::empty(),
                    ) {
                        Err(f) => Err(f),
                        Ok(names) => {
                            let chunk_desc = name_desc + names.len();
                            let chunk_data = chunk_desc + templates.len() * 8;
                            if base + chunk_data > usize::MAX {
                                redpackage::fault(base, "chunk descriptors"@)
                            } else if chunk_data > 0xffff_ffff {
                                redpackage::fault(base + chunk_data, "relative offset"@)
                            } else {
                                match (
                                    chunk_table(
                                        layout.chunks,
                                        templates,
                                        offsets,
                                        0,
                                        base,
                                        chunk_desc,
                                        chunk_data,
                                        Seq::empty(),
                                    ),
                                    redpackage::number(template, 4, 4),
                                ) {
                                    (Err(f), _) => Err(f),
                                    (_, Err(f)) => Err(f),
                                    (Ok(table), Ok(components)) => Ok(
                                        header(
                                            layout,
                                            components,
                                            state.imports.len(),
                                            SectionStarts {
                                                name_desc,
                                                name_data,
                                                chunk_desc,
                                                chunk_data,
                                            },
                                        ) + template.subrange(
                                            layout.header_size as int,
                                            base as int,
                                        ) + imports + names + table + data,
                                    ),
                                }
                            }
                        },
                    }
                }
            },
        }
    }
}

fn encode_import(import: &Import, hashed: bool) -> (result: Vec<u8>)
    ensures
        result@ == import_bytes(import@, hashed),
{
    let mut bytes: Vec<u8> = Vec::new();
    match &import.path {
        PackagePath::Text(path) => if hashed {
            write_u64(&mut bytes, depot_path_hash(path.as_str()));
        } else {
            append(&mut bytes, path.as_str().as_bytes());
        },
        PackagePath::Hash(hash) => {
            write_u64(&mut bytes, *hash);
        },
    }
    assert(bytes@ =~= import_bytes(import@, hashed));
    bytes
}

#[verifier::loop_isolation(false)]
fn build_imports(imports: &Vec<Import>, hashed: bool, base: usize) -> (result: Result<
    Vec<u8>,
    PackageError,
>)
    requires
        base <= 0x10_0000,
        base + imports@.len() * 4 <= usize::MAX,
    ensures
        match import_pool(
            redpackage::import_models(imports@),
            0,
            hashed,
            base as nat,
            imports@.len() * 4,
            Seq::empty(),
            Seq::empty(),
        ) {
            Ok(bytes) => result matches Ok(r) && r@ == bytes && r@.len() <= 0x200_0000,
            Err(f) => result matches Err(e) && e@ == f,
        },
{
    let ghost all = redpackage::import_models(imports@);
    let start: usize = imports.len() * 4;
    let ghost wanted = import_pool(
        all,
        0,
        hashed,
        base as nat,
        start as nat,
        Seq::empty(),
        Seq::empty(),
    );
    let mut descriptors: Vec<u8> = Vec::new();
    let mut data: Vec<u8> = Vec::new();
    let mut i: usize = 0;
    while i < imports.len()
        invariant
            i <= imports@.len(),
            data@.len() <= 0x80_0100,
            descriptors@.len() == i * 4,
            i > 0 ==> start < 0x80_0000,
            wanted == import_pool(
                all,
                i as nat,
                hashed,
                base as nat,
                start as nat,
                descriptors@,
                data@,
            ),
        decreases imports@.len() - i,
    {
        assert(all[i as int] == imports@[i as int]@);
        let offset: usize = start + data.len();
        let bytes: Vec<u8> = encode_import(&imports[i], hashed);
        if offset as u64 > 0xffff_ffff {
            return Err(malformed(base + offset, "relative offset"));
        }
        if offset >= 0x80_0000 {
            return Err(malformed(base + offset, "import offset range"));
        }
        if bytes.len() > 0xff {
            return Err(malformed(base + offset, "import size range"));
        }
        let soft: u32 = if imports[i].soft {
            0x8000_0000
        } else {
            0
        };
        let bits: u32 = offset as u32 + bytes.len() as u32 * 0x80_0000 + soft;
        write_u32(&mut descriptors, bits);
        proof {
            binary::lemma_le_bytes_len(bits as nat, 4);
        }
        append(&mut data, &bytes);
        i = i + 1;
    }
    append(&mut descriptors, &data);
    Ok(descriptors)
}

#[verifier::loop_isolation(false)]
fn build_names(names: &Vec<String>, base: usize, start: usize) -> (result: Result<
    Vec<u8>,
    PackageError,
>)
    requires
        base <= 0x10_0000,
        names@.len() * 4 <= start <= 0xffff_ffff,
        base + start <= usize::MAX,
    ensures
        match name_pool(
            redpackage::name_texts(names@),
            0,
            base as nat,
            start as nat,
            Seq::empty(),
            Seq::empty(),
        ) {
            Ok(bytes) => result matches Ok(r) && r@ == bytes && r@.len() <= 0x400_0000,
            Err(f) => result matches Err(e) && e@ == f,
        },
{
    let ghost all = redpackage::name_texts(names@);
    let ghost wanted = name_pool(
        all,
        0,
        base as nat,
        start as nat,
        Seq::empty(),
        Seq::empty(),
    );
    let mut descriptors: Vec<u8> = Vec::new();
    let mut data: Vec<u8> = Vec::new();
    let mut i: usize = 0;
    while i < names.len()
        invariant
            i <= names@.len(),
            data@.len() <= 0x100_0100,
            descriptors@.len() == i * 4,
            i > 0 ==> start < 0x100_0000,
            wanted == name_pool(
                all,
                i as nat,
                base as nat,
                start as nat,
                descriptors@,
                data@,
            ),
        decreases names@.len() - i,
    {
        assert(all[i as int] == names@[i as int]@);
        let offset: usize = start + data.len();
        let bytes: &[u8] = names[i].as_str().as_bytes();
        if offset >= 0x100_0000 {
            return Err(malformed(base + offset, "name offset range"));
        }
        if bytes.len() >= 0xff {
            return Err(malformed(base + offset, "name size range"));
        }
        let bits: u32 = offset as u32 + (bytes.len() as u32 + 1) * 0x100_0000;
        write_u32(&mut descriptors, bits);
        proof {
            binary::lemma_le_bytes_len(bits as nat, 4);
        }
        let ghost held = data@;
        append(&mut data, bytes);
        data.push(0);
        assert(data@ =~= held + bytes@ + seq![0u8]);
        i = i + 1;
    }
    append(&mut descriptors, &data);
    Ok(descriptors)
}

/// Builds the chunk table.
#[verifier::loop_isolation(false)]
fn build_chunks(
    chunks: &Vec<(usize, usize)>,
    templates: &Vec<usize>,
    offsets: &Vec<usize>,
    base: usize,
    start: usize,
    data_start: usize,
) -> (result: Result<Vec<u8>, PackageError>)
    requires
        base <= 0x10_0000,
        start <= data_start <= 0xffff_ffff,
        data_start == start + templates@.len() * 8,
        base + data_start <= usize::MAX,
        offsets@.len() == templates@.len(),
        forall|k: int| 0 <= k < templates@.len() ==> #[trigger] templates@[k] < chunks@.len(),
    ensures
        match chunk_table(
            redpackage::chunk_numbers(chunks@),
            redpackage_pools::numbers(templates@),
            redpackage_pools::numbers(offsets@),
            0,
            base as nat,
            start as nat,
            data_start as nat,
            Seq::empty(),
        ) {
            Ok(bytes) => result matches Ok(r) && r@ == bytes,
            Err(f) => result matches Err(e) && e@ == f,
        },
{
    let ghost all = redpackage::chunk_numbers(chunks@);
    let ghost kinds = redpackage_pools::numbers(templates@);
    let ghost places = redpackage_pools::numbers(offsets@);
    let ghost wanted = chunk_table(
        all,
        kinds,
        places,
        0,
        base as nat,
        start as nat,
        data_start as nat,
        Seq::empty(),
    );
    let mut table: Vec<u8> = Vec::new();
    let mut i: usize = 0;
    while i < templates.len()
        invariant
            i <= templates@.len(),
            wanted == chunk_table(
                all,
                kinds,
                places,
                i as nat,
                base as nat,
                start as nat,
                data_start as nat,
                table@,
            ),
        decreases templates@.len() - i,
    {
        let entry: usize = base + start + i * 8;
        let template: usize = templates[i];
        assert(kinds[i as int] == template as nat);
        assert(places[i as int] == offsets@[i as int] as nat);
        assert(all[template as int].0 == chunks@[template as int].0 as nat);
        let kind: usize = chunks[template].0;
        if kind as u64 > 0xffff_ffff {
            return Err(malformed(entry, "chunk type index"));
        }
        if offsets[i] as u64 > 0xffff_ffff - data_start as u64 {
            return Err(malformed(entry, "chunk offset"));
        }
        let offset: u32 = (data_start as u64 + offsets[i] as u64) as u32;
        write_u32(&mut table, kind as u32);
        write_u32(&mut table, offset);
        i = i + 1;
    }
    Ok(table)
}

/// Puts a package together.
fn build_package(
    template: &[u8],
    layout: &PackageLayout,
    encoder: &Encoder<'_>,
    templates: &Vec<usize>,
    offsets: &Vec<usize>,
    data: &Vec<u8>,
    hashed: bool,
) -> (result: Result<Vec<u8>, PackageError>)
    requires
        layout.base <= 0x10_0000,
        offsets@.len() == templates@.len(),
        forall|k: int|
            0 <= k < templates@.len() ==> #[trigger] templates@[k] < layout.chunks@.len(),
    ensures
        match built(
            template@,
            layout@,
            encoder@,
            redpackage_pools::numbers(templates@),
            redpackage_pools::numbers(offsets@),
            data@,
            hashed,
        ) {
            Ok(bytes) => result matches Ok(r) && r@ == bytes,
            Err(f) => result matches Err(e) && e@ == f,
        },
{
    let base: usize = layout.base;
    if layout.sections != 7 && encoder.imports.len() > 0 {
        return Err(unsupported("package section-count transition"));
    }
    if layout.header_size > base || base > template.len() {
        return Err(malformed(layout.header_size, "CRUID template bounds"));
    }
    if encoder.imports.len() > (usize::MAX - base) / 4 {
        return Err(malformed(base, "import descriptors"));
    }
    let imports: Vec<u8> = match build_imports(&encoder.imports, hashed, base) {
        Ok(bytes) => bytes,
        Err(error) => return Err(error),
    };
    let name_desc: usize = imports.len();
    if encoder.names.len() > (usize::MAX - base - name_desc) / 4 {
        return Err(malformed(base, "name descriptors"));
    }
    let name_data: usize = name_desc + encoder.names.len() * 4;
    if name_data as u64 > 0xffff_ffff {
        return Err(malformed(base + name_data, "relative offset"));
    }
    let names: Vec<u8> = match build_names(&encoder.names, base, name_data) {
        Ok(bytes) => bytes,
        Err(error) => return Err(error),
    };
    let chunk_desc: usize = name_desc + names.len();
    if templates.len() > (usize::MAX - base - chunk_desc) / 8 {
        return Err(malformed(base, "chunk descriptors"));
    }
    let chunk_data: usize = chunk_desc + templates.len() * 8;
    if chunk_data as u64 > 0xffff_ffff {
        return Err(malformed(base + chunk_data, "relative offset"));
    }
    let table: Vec<u8> = match build_chunks(
        &layout.chunks,
        templates,
        offsets,
        base,
        chunk_desc,
        chunk_data,
    ) {
        Ok(bytes) => bytes,
        Err(error) => return Err(error),
    };
    let components: u32 = match u32_at(template, 4) {
        Ok(components) => components,
        Err(error) => return Err(error),
    };
    let mut output: Vec<u8> = Vec::new();
    output.push(layout.version);
    output.push(layout.unknown1);
    write_u16(&mut output, layout.sections);
    write_u32(&mut output, components);
    let ghost front = output@;
    if layout.sections == 7 {
        write_u32(&mut output, 0);
        write_u32(&mut output, (encoder.imports.len() * 4) as u32);
    }
    let ghost referenced = output@;
    write_u32(&mut output, name_desc as u32);
    write_u32(&mut output, name_data as u32);
    write_u32(&mut output, chunk_desc as u32);
    write_u32(&mut output, chunk_data as u32);
    let ghost head = header(
        layout@,
        components as nat,
        encoder@.imports.len(),
        SectionStarts {
            name_desc: name_desc as nat,
            name_data: name_data as nat,
            chunk_desc: chunk_desc as nat,
            chunk_data: chunk_data as nat,
        },
    );
    proof {
        assert(front =~= seq![layout.version, layout.unknown1] + binary::le_bytes(
            layout.sections as nat,
            2,
        ) + binary::le_bytes(components as nat, 4));
        if layout.sections == 7 {
            assert(referenced =~= front + (binary::le_bytes(0, 4) + binary::le_bytes(
                encoder@.imports.len() * 4,
                4,
            )));
        } else {
            assert(referenced =~= front + Seq::empty());
        }
        assert(output@ =~= head);
    }
    append(&mut output, part(template, layout.header_size, base));
    append(&mut output, &imports);
    append(&mut output, &names);
    append(&mut output, &table);
    append(&mut output, data);
    Ok(output)
}

/// The chunks of a template from index `i` on, behind those found.
pub open spec fn template_chunks(
    p: Package,
    chunks: Seq<(nat, nat)>,
    i: nat,
    found: Seq<value::Model>,
) -> Result<Seq<value::Model>, redpackage::Fault>
    decreases chunks.len() - i,
{
    if i >= chunks.len() {
        Ok(found)
    } else {
        match template_class(p, chunks, i) {
            Err(f) => Err(f),
            Ok((class, start, end)) => match redpackage_decoder::class_at(p, class, start, end) {
                Err(f) => Err(f),
                Ok((m, _)) => template_chunks(p, chunks, i + 1, found.push(m)),
            },
        }
    }
}

/// The class of a chunk of the template, and where it starts and ends.
pub open spec fn template_class(p: Package, chunks: Seq<(nat, nat)>, i: nat) -> Result<
    (Seq<char>, nat, nat),
    redpackage::Fault,
> {
    if i >= chunks.len() {
        redpackage::fault(i, "chunk template bounds"@)
    } else {
        let start = chunks[i as int].1;
        let end = redpackage_document::chunk_end(chunks, i, p.bytes.len());
        match redpackage_reader::name_of(p, chunks[i as int].0, start) {
            Err(f) => Err(f),
            Ok(class) => if end + 64 > usize::MAX {
                redpackage::fault(start, "chunk bounds"@)
            } else {
                Ok((class, start, end))
            },
        }
    }
}

/// The imports with a text from index `i` on, behind those found.
pub open spec fn text_imports(
    imports: Seq<redpackage::ImportModel>,
    i: nat,
    found: Seq<(Seq<char>, bool, nat)>,
) -> Result<Seq<(Seq<char>, bool, nat)>, redpackage::Fault>
    decreases imports.len() - i,
{
    if i >= imports.len() {
        Ok(found)
    } else {
        match imports[i as int].path {
            redpackage::PathModel::Hash(_) => text_imports(imports, i + 1, found),
            redpackage::PathModel::Text(path) => if i > 0x7fff {
                redpackage::fault(i, "import index"@)
            } else {
                text_imports(imports, i + 1, found.push((path, imports[i as int].soft, i)))
            },
        }
    }
}

/// The classes of the chunks from index `i` on, behind those found.
pub open spec fn chunk_classes(
    p: Package,
    chunks: Seq<(nat, nat)>,
    i: nat,
    found: Seq<(Seq<char>, nat)>,
) -> Result<Seq<(Seq<char>, nat)>, redpackage::Fault>
    decreases chunks.len() - i,
{
    if i >= chunks.len() {
        Ok(found)
    } else {
        match redpackage_reader::name_of(p, chunks[i as int].0, chunks[i as int].1) {
            Err(f) => Err(f),
            Ok(class) => chunk_classes(p, chunks, i + 1, found.push((class, i))),
        }
    }
}

/// Root chunks with the values that take their place.
pub open spec fn rooted(roots: Seq<nat>, values: Seq<value::Model>) -> Seq<
    (nat, Seq<nat>, value::Model),
> {
    Seq::new(roots.len(), |k: int| (roots[k], seq![k as nat], values[k]))
}

/// Writing the chunks from an index on to find what they need.
pub open spec fn discovered(
    source: Source,
    chunks: Seq<(nat, nat)>,
    state: State,
    index: nat,
) -> Result<State, redpackage::Fault>
    decreases usize::MAX - index,
{
    if index >= state.templates.len() || index >= usize::MAX {
        Ok(state)
    } else {
        match redpackage_pools::chunk_of(state.chunks, index) {
            None => discovered(source, chunks, state, index + 1),
            Some((path, data)) => match template_class(
                source.package,
                chunks,
                state.templates[index as int],
            ) {
                Err(f) => Err(f),
                Ok((class, start, end)) => match redpackage_writer::written_class(
                    source,
                    state,
                    class,
                    data,
                    path,
                    start,
                    end,
                ) {
                    Err(f) => Err(f),
                    Ok((bytes, after)) => if bytes.len() > usize::MAX {
                        redpackage::fault(start, "chunk size"@)
                    } else {
                        discovered(source, chunks, after, index + 1)
                    },
                },
            },
        }
    }
}

/// The chunks from index `i` on, behind the offsets and the bytes written.
pub open spec fn rebuilt(
    source: Source,
    chunks: Seq<(nat, nat)>,
    templates: Seq<nat>,
    state: State,
    i: nat,
    offsets: Seq<nat>,
    bytes: Seq<u8>,
) -> Result<(Seq<nat>, Seq<u8>, State), redpackage::Fault>
    decreases templates.len() - i,
{
    if i >= templates.len() {
        Ok((offsets, bytes, state))
    } else {
        match template_class(source.package, chunks, templates[i as int]) {
            Err(f) => Err(f),
            Ok((class, start, end)) => match redpackage_pools::chunk_of(state.chunks, i) {
                None => match redpackage_writer::slice(
                    source.package.bytes,
                    start,
                    end,
                    "chunk template bounds"@,
                ) {
                    Err(f) => Err(f),
                    Ok(kept) => rebuilt(
                        source,
                        chunks,
                        templates,
                        state,
                        i + 1,
                        offsets.push(bytes.len()),
                        bytes + kept,
                    ),
                },
                Some((path, data)) => match redpackage_writer::written_class(
                    source,
                    state,
                    class,
                    data,
                    path,
                    start,
                    end,
                ) {
                    Err(f) => Err(f),
                    Ok((more, after)) => rebuilt(
                        source,
                        chunks,
                        templates,
                        after,
                        i + 1,
                        offsets.push(bytes.len()),
                        bytes + more,
                    ),
                },
            },
        }
    }
}

/// A package whose template was read, with the values of its root chunks
/// replaced.
pub open spec fn replaced(
    template: Seq<u8>,
    layout: redpackage::LayoutModel,
    p: Package,
    roots: Seq<nat>,
    values: Seq<value::Model>,
    hashed: bool,
) -> Result<Seq<u8>, redpackage::Fault> {
    if values.len() != roots.len() {
        Err(redpackage::Fault::Unsupported("package root chunk count change"@))
    } else if layout.names.len() > 0x1_0000 {
        redpackage::fault(0x1_0000, "name index"@)
    } else {
        match (
            text_imports(layout.imports, 0, Seq::empty()),
            chunk_classes(p, layout.chunks, 0, Seq::empty()),
        ) {
            (Err(f), _) => Err(f),
            (_, Err(f)) => Err(f),
            (Ok(known), Ok(class_templates)) => {
                let state = State {
                    names: layout.names,
                    imports: layout.imports,
                    known,
                    chunks: rooted(roots, values),
                    templates: Seq::new(layout.chunks.len(), |i: int| i as nat),
                    ids: Seq::empty(),
                    claimed: roots,
                };
                let source = Source { package: p, class_templates, hashed, discovering: true };
                match discovered(source, layout.chunks, state, 0) {
                    Err(f) => Err(f),
                    Ok(found) => match rebuilt(
                        Source { discovering: false, ..source },
                        layout.chunks,
                        found.templates,
                        found,
                        0,
                        Seq::empty(),
                        Seq::empty(),
                    ) {
                        Err(f) => Err(f),
                        Ok((offsets, bytes, state)) => built(
                            template,
                            layout,
                            state,
                            found.templates,
                            offsets,
                            bytes,
                            hashed,
                        ),
                    },
                }
            },
        }
    }
}

/// A package in the layout of a template, with the values of a document.
pub open spec fn encoded(
    template: Seq<u8>,
    data: value::Model,
    classes: Seq<(Seq<char>, ())>,
    settings: PackageSettings,
) -> Result<Seq<u8>, redpackage::Fault> {
    if template.len() + 64 > usize::MAX {
        redpackage::fault(0, "package size"@)
    } else {
        match redpackage::layout_of(template, settings.imports_as_hash) {
            Err(f) => Err(f),
            Ok(layout) => match value::member(data, "Chunks"@) {
                Some(value::Model::Array(values)) => {
                    let p = redpackage_document::package(template, layout, classes);
                    match template_chunks(p, layout.chunks, 0, Seq::empty()) {
                        Err(f) => Err(f),
                        Ok(flat) => replaced(
                            template,
                            layout,
                            p,
                            redpackage_document::roots(flat, flat.len()),
                            values,
                            settings.imports_as_hash,
                        ),
                    }
                },
                _ => redpackage::fault(0, "package Chunks"@),
            },
        }
    }
}

fn class_of_chunk<'b>(reader: &Reader<'b>, chunks: &Vec<(usize, usize)>, i: usize) -> (result: Result<
    (&'b str, usize, usize),
    PackageError,
>)
    ensures
        match template_class(reader@, redpackage::chunk_numbers(chunks@), i as nat) {
            Ok((class, start, end)) => result matches Ok(r) && r.0@ == class && r.1 == start
                && r.2 == end && end + 64 <= usize::MAX && i < chunks@.len(),
            Err(f) => result matches Err(e) && e@ == f,
        },
{
    if i >= chunks.len() {
        return Err(malformed(i, "chunk template bounds"));
    }
    let (kind, start): (usize, usize) = chunks[i];
    assert(redpackage::chunk_numbers(chunks@)[i as int] == (kind as nat, start as nat));
    let end: usize = end_of_chunk(chunks, i, reader.bytes.len());
    let class: &'b str = match reader.name(kind, start) {
        Ok(class) => class,
        Err(error) => return Err(error),
    };
    if end > usize::MAX - 64 {
        return Err(malformed(start, "chunk bounds"));
    }
    Ok((class, start, end))
}

#[verifier::loop_isolation(false)]
fn read_template_chunks(reader: &Reader<'_>, chunks: &Vec<(usize, usize)>) -> (result: Result<
    Vec<Value>,
    PackageError,
>)
    requires
        reader.bytes@.len() + 64 <= usize::MAX,
    ensures
        match template_chunks(
            reader@,
            redpackage::chunk_numbers(chunks@),
            0,
            Seq::empty(),
        ) {
            Ok(values) => result matches Ok(r) && value::models(r@) == values,
            Err(f) => result matches Err(e) && e@ == f,
        },
{
    let ghost numbers = redpackage::chunk_numbers(chunks@);
    let ghost wanted = template_chunks(reader@, numbers, 0, Seq::empty());
    let mut values: Vec<Value> = Vec::new();
    let mut i: usize = 0;
    while i < chunks.len()
        invariant
            i <= chunks@.len(),
            wanted == template_chunks(reader@, numbers, i as nat, value::models(values@)),
        decreases chunks@.len() - i,
    {
        let (class, start, end): (&str, usize, usize) = match class_of_chunk(reader, chunks, i) {
            Ok(found) => found,
            Err(error) => return Err(error),
        };
        let class_chars: Vec<char> = chars_of(class);
        let value: Value = match reader.read_class(&class_chars, start, end) {
            Ok((value, _)) => value,
            Err(error) => return Err(error),
        };
        proof {
            value::lemma_models_push(values@, value);
        }
        values.push(value);
        i = i + 1;
    }
    Ok(values)
}

#[verifier::loop_isolation(false)]
fn list_text_imports(imports: &Vec<Import>) -> (result: Result<
    Vec<(String, bool, usize)>,
    PackageError,
>)
    ensures
        match text_imports(redpackage::import_models(imports@), 0, Seq::empty()) {
            Ok(known) => result matches Ok(r) && redpackage_pools::known_models(r@) == known,
            Err(f) => result matches Err(e) && e@ == f,
        },
{
    let ghost all = redpackage::import_models(imports@);
    let ghost wanted = text_imports(all, 0, Seq::empty());
    let mut known: Vec<(String, bool, usize)> = Vec::new();
    assert(redpackage_pools::known_models(known@) =~= Seq::empty());
    let mut i: usize = 0;
    while i < imports.len()
        invariant
            i <= imports@.len(),
            wanted == text_imports(all, i as nat, redpackage_pools::known_models(known@)),
        decreases imports@.len() - i,
    {
        assert(all[i as int] == imports@[i as int]@);
        match &imports[i].path {
            PackagePath::Hash(_) => {},
            PackagePath::Text(path) => {
                if i > 0x7fff {
                    return Err(malformed(i, "import index"));
                }
                let entry: (String, bool, usize) = (copy_text(path.as_str()), imports[i].soft, i);
                assert(redpackage_pools::known_models(known@.push(entry))
                    =~= redpackage_pools::known_models(known@).push(
                    (path@, imports@[i as int].soft, i as nat),
                ));
                known.push(entry);
            },
        }
        i = i + 1;
    }
    Ok(known)
}

#[verifier::loop_isolation(false)]
fn list_chunk_classes(reader: &Reader<'_>, chunks: &Vec<(usize, usize)>) -> (result: Result<
    Vec<(String, usize)>,
    PackageError,
>)
    ensures
        match chunk_classes(
            reader@,
            redpackage::chunk_numbers(chunks@),
            0,
            Seq::empty(),
        ) {
            Ok(classes) => result matches Ok(r) && redpackage_pools::text_indices(r@) == classes,
            Err(f) => result matches Err(e) && e@ == f,
        },
{
    let ghost numbers = redpackage::chunk_numbers(chunks@);
    let ghost wanted = chunk_classes(reader@, numbers, 0, Seq::empty());
    let mut classes: Vec<(String, usize)> = Vec::new();
    assert(redpackage_pools::text_indices(classes@) =~= Seq::empty());
    let mut i: usize = 0;
    while i < chunks.len()
        invariant
            i <= chunks@.len(),
            wanted == chunk_classes(
                reader@,
                numbers,
                i as nat,
                redpackage_pools::text_indices(classes@),
            ),
        decreases chunks@.len() - i,
    {
        let (kind, start): (usize, usize) = chunks[i];
        assert(numbers[i as int] == (kind as nat, start as nat));
        let class: &str = match reader.name(kind, start) {
            Ok(class) => class,
            Err(error) => return Err(error),
        };
        let entry: (String, usize) = (copy_text(class), i);
        assert(redpackage_pools::text_indices(classes@.push(entry))
            =~= redpackage_pools::text_indices(classes@).push((class@, i as nat)));
        classes.push(entry);
        i = i + 1;
    }
    Ok(classes)
}

fn copy_names(names: &Vec<String>) -> (result: Vec<String>)
    ensures
        redpackage::name_texts(result@) == redpackage::name_texts(names@),
{
    let mut copies: Vec<String> = Vec::new();
    let mut i: usize = 0;
    while i < names.len()
        invariant
            i <= names@.len(),
            redpackage::name_texts(copies@) =~= redpackage::name_texts(names@).subrange(0, i as int),
        decreases names@.len() - i,
    {
        let copy: String = copy_text(names[i].as_str());
        proof {
            let all = redpackage::name_texts(names@);
            assert(redpackage::name_texts(copies@.push(copy)) =~= redpackage::name_texts(
                copies@,
            ).push(copy@));
            assert(all.subrange(0, i + 1) =~= all.subrange(0, i as int).push(all[i as int]));
        }
        copies.push(copy);
        i = i + 1;
    }
    assert(redpackage::name_texts(copies@) =~= redpackage::name_texts(names@));
    copies
}

fn copy_imports(imports: &Vec<Import>) -> (result: Vec<Import>)
    ensures
        redpackage::import_models(result@) == redpackage::import_models(imports@),
{
    let mut copies: Vec<Import> = Vec::new();
    let mut i: usize = 0;
    while i < imports.len()
        invariant
            i <= imports@.len(),
            redpackage::import_models(copies@) =~= redpackage::import_models(imports@).subrange(
                0,
                i as int,
            ),
        decreases imports@.len() - i,
    {
        let path: PackagePath = match &imports[i].path {
            PackagePath::Text(path) => PackagePath::Text(copy_text(path.as_str())),
            PackagePath::Hash(hash) => PackagePath::Hash(*hash),
        };
        let copy: Import = Import { path, soft: imports[i].soft };
        proof {
            let all = redpackage::import_models(imports@);
            assert(redpackage::import_models(copies@.push(copy)) =~= redpackage::import_models(
                copies@,
            ).push(copy@));
            assert(all.subrange(0, i + 1) =~= all.subrange(0, i as int).push(all[i as int]));
        }
        copies.push(copy);
        i = i + 1;
    }
    assert(redpackage::import_models(copies@) =~= redpackage::import_models(imports@));
    copies
}

fn copy_path(path: &Vec<usize>) -> (result: Vec<usize>)
    ensures
        result@ == path@,
{
    let mut copy: Vec<usize> = Vec::new();
    let mut i: usize = 0;
    while i < path.len()
        invariant
            i <= path@.len(),
            copy@ =~= path@.subrange(0, i as int),
        decreases path@.len() - i,
    {
        copy.push(path[i]);
        i = i + 1;
    }
    assert(copy@ =~= path@);
    copy
}

impl<'a> Encoder<'a> {
    /// Writes the chunks to find what they need.
    fn discover(&mut self, chunks: &Vec<(usize, usize)>) -> (result: Result<(), PackageError>)
        requires
            old(self).reader.bytes@.len() + 64 <= usize::MAX,
        ensures
            final(self).source() == old(self).source(),
            final(self).reader == old(self).reader,
            match discovered(
                old(self).source(),
                redpackage::chunk_numbers(chunks@),
                old(self)@,
                0,
            ) {
                Ok(state) => result is Ok && final(self)@ == state,
                Err(f) => result matches Err(e) && e@ == f,
            },
    {
        let ghost numbers = redpackage::chunk_numbers(chunks@);
        let ghost wanted = discovered(self.source(), numbers, self@, 0);
        let mut index: usize = 0;
        while index < self.templates.len()
            invariant
                numbers == redpackage::chunk_numbers(chunks@),
                self.reader.bytes@.len() + 64 <= usize::MAX,
                self.source() == old(self).source(),
                self.reader == old(self).reader,
                wanted == discovered(old(self).source(), numbers, old(self)@, 0),
                wanted == discovered(self.source(), numbers, self@, index as nat),
            decreases usize::MAX - index,
        {
            if let Some(at) = self.chunk_position(index) {
                let template: usize = self.templates[index];
                assert(self@.templates[index as int] == template as nat);
                let (class, start, end): (&str, usize, usize) = match class_of_chunk(
                    &self.reader,
                    chunks,
                    template,
                ) {
                    Ok(found) => found,
                    Err(error) => return Err(error),
                };
                let data: &'a Value = self.chunks[at].2;
                let path: Vec<usize> = copy_path(&self.chunks[at].1);
                let class_chars: Vec<char> = chars_of(class);
                match self.encode_class(&class_chars, data, &path, start, end) {
                    Ok(bytes) => {
                        let size: usize = bytes.len();
                        assert(bytes@.len() == size);
                    },
                    Err(error) => return Err(error),
                }
            }
            index = index + 1;
        }
        Ok(())
    }

    /// Writes the chunks.
    fn rebuild(&mut self, chunks: &Vec<(usize, usize)>, templates: &Vec<usize>) -> (result: Result<
        (Vec<usize>, Vec<u8>),
        PackageError,
    >)
        requires
            old(self).reader.bytes@.len() + 64 <= usize::MAX,
        ensures
            final(self).source() == old(self).source(),
            final(self).reader == old(self).reader,
            match rebuilt(
                old(self).source(),
                redpackage::chunk_numbers(chunks@),
                redpackage_pools::numbers(templates@),
                old(self)@,
                0,
                Seq::empty(),
                Seq::empty(),
            ) {
                Ok((offsets, bytes, state)) => result matches Ok(r) && redpackage_pools::numbers(
                    r.0@,
                ) == offsets && r.1@ == bytes && final(self)@ == state && r.0@.len()
                    == templates@.len() && forall|k: int|
                    0 <= k < templates@.len() ==> #[trigger] templates@[k] < chunks@.len(),
                Err(f) => result matches Err(e) && e@ == f,
            },
    {
        let ghost numbers = redpackage::chunk_numbers(chunks@);
        let ghost kinds = redpackage_pools::numbers(templates@);
        let ghost wanted = rebuilt(
            self.source(),
            numbers,
            kinds,
            self@,
            0,
            Seq::empty(),
            Seq::empty(),
        );
        let template: &'a [u8] = self.reader.bytes;
        let mut offsets: Vec<usize> = Vec::new();
        let mut output: Vec<u8> = Vec::new();
        assert(redpackage_pools::numbers(offsets@) =~= Seq::empty());
        let mut i: usize = 0;
        while i < templates.len()
            invariant
                i <= templates@.len(),
                offsets@.len() == i,
                forall|k: int| 0 <= k < i ==> #[trigger] templates@[k] < chunks@.len(),
                template == self.reader.bytes,
                numbers == redpackage::chunk_numbers(chunks@),
                kinds == redpackage_pools::numbers(templates@),
                self.reader.bytes@.len() + 64 <= usize::MAX,
                self.source() == old(self).source(),
                self.reader == old(self).reader,
                wanted == rebuilt(
                    old(self).source(),
                    numbers,
                    kinds,
                    old(self)@,
                    0,
                    Seq::empty(),
                    Seq::empty(),
                ),
                wanted == rebuilt(
                    self.source(),
                    numbers,
                    kinds,
                    self@,
                    i as nat,
                    redpackage_pools::numbers(offsets@),
                    output@,
                ),
            decreases templates@.len() - i,
        {
            assert(kinds[i as int] == templates@[i as int] as nat);
            let (class, start, end): (&str, usize, usize) = match class_of_chunk(
                &self.reader,
                chunks,
                templates[i],
            ) {
                Ok(found) => found,
                Err(error) => return Err(error),
            };
            let offset: usize = output.len();
            assert(redpackage_pools::numbers(offsets@.push(offset)) =~= redpackage_pools::numbers(
                offsets@,
            ).push(offset as nat));
            match self.chunk_position(i) {
                None => {
                    let kept: &[u8] = match redpackage_writer::template_slice(
                        template,
                        start,
                        end,
                        "chunk template bounds",
                    ) {
                        Ok(kept) => kept,
                        Err(error) => return Err(error),
                    };
                    append(&mut output, kept);
                },
                Some(at) => {
                    let data: &'a Value = self.chunks[at].2;
                    let path: Vec<usize> = copy_path(&self.chunks[at].1);
                    let class_chars: Vec<char> = chars_of(class);
                    let bytes: Vec<u8> = match self.encode_class(
                        &class_chars,
                        data,
                        &path,
                        start,
                        end,
                    ) {
                        Ok(bytes) => bytes,
                        Err(error) => return Err(error),
                    };
                    append(&mut output, &bytes);
                },
            }
            offsets.push(offset);
            i = i + 1;
        }
        Ok((offsets, output))
    }
}

fn count_up(n: usize) -> (result: Vec<usize>)
    ensures
        redpackage_pools::numbers(result@) == Seq::new(n as nat, |i: int| i as nat),
{
    let mut list: Vec<usize> = Vec::new();
    let mut i: usize = 0;
    while i < n
        invariant
            i <= n,
            list@.len() == i,
            forall|k: int| 0 <= k < i ==> list@[k] == k,
        decreases n - i,
    {
        list.push(i);
        i = i + 1;
    }
    assert(redpackage_pools::numbers(list@) =~= Seq::new(n as nat, |i: int| i as nat));
    list
}

fn root_values<'a>(roots: &Vec<usize>, values: &'a Vec<Value>) -> (result: Vec<
    (usize, Vec<usize>, &'a Value),
>)
    requires
        roots@.len() == values@.len(),
    ensures
        redpackage_pools::chunk_models(result@) == rooted(
            redpackage_pools::numbers(roots@),
            value::models(values@),
        ),
{
    let ghost wanted = rooted(redpackage_pools::numbers(roots@), value::models(values@));
    proof {
        value::lemma_models(values@);
    }
    let mut chunks: Vec<(usize, Vec<usize>, &'a Value)> = Vec::new();
    assert(redpackage_pools::chunk_models(chunks@) =~= wanted.subrange(0, 0));
    let mut i: usize = 0;
    while i < roots.len()
        invariant
            i <= roots@.len() == values@.len(),
            wanted == rooted(redpackage_pools::numbers(roots@), value::models(values@)),
            value::models(values@).len() == values@.len(),
            forall|k: int|
                0 <= k < values@.len() ==> #[trigger] value::models(values@)[k] == value::model(
                    values@[k],
                ),
            redpackage_pools::chunk_models(chunks@) == wanted.subrange(0, i as int),
        decreases roots@.len() - i,
    {
        let mut path: Vec<usize> = Vec::new();
        path.push(i);
        assert(redpackage_pools::numbers(path@) =~= seq![i as nat]);
        let data: &'a Value = &values[i];
        let chunk: (usize, Vec<usize>, &'a Value) = (roots[i], path, data);
        proof {
            assert(value::models(values@)[i as int] == value::model(values@[i as int]));
            assert(redpackage_pools::chunk_models(chunks@.push(chunk))
                =~= redpackage_pools::chunk_models(chunks@).push(
                (roots@[i as int] as nat, seq![i as nat], data@),
            ));
            assert(wanted.subrange(0, i + 1) =~= wanted.subrange(0, i as int).push(
                wanted[i as int],
            ));
        }
        chunks.push(chunk);
        i = i + 1;
    }
    assert(wanted.subrange(0, i as int) =~= wanted);
    chunks
}

fn replace_values(
    template: &[u8],
    layout: &PackageLayout,
    classes: &Vec<String>,
    roots: Vec<usize>,
    values: &Vec<Value>,
    hashed: bool,
) -> (result: Result<Vec<u8>, PackageError>)
    requires
        template@.len() + 64 <= usize::MAX,
        layout.base <= 0x10_0000,
    ensures
        match replaced(
            template@,
            layout@,
            redpackage_document::package(template@, layout@, entries::name_keys(classes@)),
            redpackage_pools::numbers(roots@),
            value::models(values@),
            hashed,
        ) {
            Ok(bytes) => result matches Ok(r) && r@ == bytes,
            Err(f) => result matches Err(e) && e@ == f,
        },
{
    proof {
        value::lemma_models(values@);
    }
    if values.len() != roots.len() {
        return Err(unsupported("package root chunk count change"));
    }
    if layout.names.len() > 0x1_0000 {
        return Err(malformed(0x1_0000, "name index"));
    }
    let reader: Reader<'_> = Reader {
        bytes: template,
        names: &layout.names,
        imports: &layout.imports,
        classes,
        version: layout.version,
        unknown1: layout.unknown1,
    };
    let known: Vec<(String, bool, usize)> = match list_text_imports(&layout.imports) {
        Ok(known) => known,
        Err(error) => return Err(error),
    };
    let class_templates: Vec<(String, usize)> = match list_chunk_classes(
        &reader,
        &layout.chunks,
    ) {
        Ok(classes) => classes,
        Err(error) => return Err(error),
    };
    let chunks: Vec<(usize, Vec<usize>, &Value)> = root_values(&roots, values);
    let mut encoder: Encoder<'_> = Encoder {
        reader,
        names: copy_names(&layout.names),
        imports: copy_imports(&layout.imports),
        known,
        chunks,
        templates: count_up(layout.chunks.len()),
        ids: Vec::new(),
        claimed: roots,
        class_templates,
        hashed,
        discovering: true,
    };
    assert(encoder@.ids =~= Seq::empty());
    match encoder.discover(&layout.chunks) {
        Ok(_) => {},
        Err(error) => return Err(error),
    }
    encoder.discovering = false;
    let templates: Vec<usize> = copy_path(&encoder.templates);
    let (offsets, data): (Vec<usize>, Vec<u8>) = match encoder.rebuild(
        &layout.chunks,
        &templates,
    ) {
        Ok(written) => written,
        Err(error) => return Err(error),
    };
    build_package(template, layout, &encoder, &templates, &offsets, &data, hashed)
}

/// Writes a package in the layout of a template, with the values of a document.
pub fn encode_with_template(
    template: &[u8],
    data: &Value,
    classes: &Vec<String>,
    settings: PackageSettings,
) -> (result: Result<Vec<u8>, PackageError>)
    ensures
        match encoded(template@, data@, entries::name_keys(classes@), settings) {
            Ok(bytes) => result matches Ok(r) && r@ == bytes,
            Err(f) => result matches Err(e) && e@ == f,
        },
{
    if template.len() > usize::MAX - 64 {
        return Err(malformed(0, "package size"));
    }
    let layout: PackageLayout = match parse_layout(template, settings.imports_as_hash) {
        Ok(layout) => layout,
        Err(error) => return Err(error),
    };
    let values: &Vec<Value> = match data.get("Chunks") {
        Some(Value::Array(values)) => values,
        _ => return Err(malformed(0, "package Chunks")),
    };
    let reader: Reader<'_> = Reader {
        bytes: template,
        names: &layout.names,
        imports: &layout.imports,
        classes,
        version: layout.version,
        unknown1: layout.unknown1,
    };
    let flat: Vec<Value> = match read_template_chunks(&reader, &layout.chunks) {
        Ok(flat) => flat,
        Err(error) => return Err(error),
    };
    let roots: Vec<usize> = root_chunks(&flat);
    replace_values(template, &layout, classes, roots, values, settings.imports_as_hash)
}

} // verus!
