//! RED package buffers.

use crate::binary;
use crate::binary::{read_u16_le, read_u32_le, read_u64_le};
use crate::number_text;
use crate::number_text::decimal_text;
use crate::sequence::part;
use crate::text::{from_utf8, push_text};
use vstd::prelude::*;
use vstd::utf8;

pub use crate::redpackage_build::encode_with_template;
pub use crate::redpackage_document::decode;

verus! {

/// Reports malformed or unsupported packages.
#[derive(Debug, PartialEq, Eq)]
pub enum PackageError {
    /// The bytes at an offset violate the format.
    Malformed { offset: usize, reason: &'static str },
    /// A type, or a change to a package, is not supported.
    Unsupported(String),
}

/// How a package stores its imports, and where the numbers of its handles start.
#[derive(Debug, Clone, Copy, PartialEq, Eq, Structural)]
pub struct PackageSettings {
    pub imports_as_hash: bool,
    pub handle_id_base: usize,
}

/// What an error says.
pub ghost enum Fault {
    Malformed(nat, Seq<char>),
    Unsupported(Seq<char>),
}

impl View for PackageError {
    type V = Fault;

    open spec fn view(&self) -> Fault {
        match self {
            PackageError::Malformed { offset, reason } => Fault::Malformed(
                *offset as nat,
                reason@,
            ),
            PackageError::Unsupported(what) => Fault::Unsupported(what@),
        }
    }
}

/// The sentence of an error.
pub open spec fn fault_text(fault: Fault) -> Seq<char> {
    match fault {
        Fault::Malformed(offset, reason) => "malformed RedPackage at byte "@ + number_text::decimal(
            offset,
        ) + ": "@ + reason,
        Fault::Unsupported(what) => "unsupported RedPackage type "@ + what,
    }
}

impl PackageError {
    /// The sentence of the error.
    pub fn describe(&self) -> (result: String)
        ensures
            result@ == fault_text(self@),
    {
        let mut text: String = String::new();
        match self {
            PackageError::Malformed { offset, reason } => {
                push_text(&mut text, "malformed RedPackage at byte ");
                push_text(&mut text, decimal_text(*offset as u64).as_str());
                push_text(&mut text, ": ");
                push_text(&mut text, reason);
            },
            PackageError::Unsupported(what) => {
                push_text(&mut text, "unsupported RedPackage type ");
                push_text(&mut text, what.as_str());
            },
        }
        assert(text@ =~= fault_text(self@));
        text
    }
}

/// Where an import leads.
#[derive(Debug, PartialEq, Eq)]
pub enum PackagePath {
    Text(String),
    Hash(u64),
}

/// An import of a package.
#[derive(Debug, PartialEq, Eq)]
pub struct Import {
    pub path: PackagePath,
    pub soft: bool,
}

/// Where an import leads.
pub ghost enum PathModel {
    Text(Seq<char>),
    Hash(u64),
}

/// What an import holds.
pub ghost struct ImportModel {
    pub path: PathModel,
    pub soft: bool,
}

impl View for Import {
    type V = ImportModel;

    open spec fn view(&self) -> ImportModel {
        ImportModel {
            path: match self.path {
                PackagePath::Text(text) => PathModel::Text(text@),
                PackagePath::Hash(hash) => PathModel::Hash(hash),
            },
            soft: self.soft,
        }
    }
}

/// What imports hold.
pub open spec fn import_models(imports: Seq<Import>) -> Seq<ImportModel> {
    imports.map_values(|import: Import| import@)
}

/// The texts of names.
pub open spec fn name_texts(names: Seq<String>) -> Seq<Seq<char>> {
    names.map_values(|name: String| name@)
}

/// The tables of a package.
#[derive(Debug)]
pub struct PackageLayout {
    pub version: u8,
    pub unknown1: u8,
    pub sections: u16,
    pub header_size: usize,
    pub base: usize,
    pub names: Vec<String>,
    pub imports: Vec<Import>,
    pub chunks: Vec<(usize, usize)>,
}

/// What the tables of a package hold.
pub ghost struct LayoutModel {
    pub version: nat,
    pub unknown1: nat,
    pub sections: nat,
    pub header_size: nat,
    pub base: nat,
    pub names: Seq<Seq<char>>,
    pub imports: Seq<ImportModel>,
    pub chunks: Seq<(nat, nat)>,
}

/// The numbers of chunks: the type's and the offset.
pub open spec fn chunk_numbers(chunks: Seq<(usize, usize)>) -> Seq<(nat, nat)> {
    chunks.map_values(|chunk: (usize, usize)| (chunk.0 as nat, chunk.1 as nat))
}

impl View for PackageLayout {
    type V = LayoutModel;

    open spec fn view(&self) -> LayoutModel {
        LayoutModel {
            version: self.version as nat,
            unknown1: self.unknown1 as nat,
            sections: self.sections as nat,
            header_size: self.header_size as nat,
            base: self.base as nat,
            names: name_texts(self.names@),
            imports: import_models(self.imports@),
            chunks: chunk_numbers(self.chunks@),
        }
    }
}

/// A fault at an offset.
pub open spec fn fault<T>(offset: nat, reason: Seq<char>) -> Result<T, Fault> {
    Err(Fault::Malformed(offset, reason))
}

/// Makes an error.
pub fn malformed(offset: usize, reason: &'static str) -> (result: PackageError)
    ensures
        result@ == Fault::Malformed(offset as nat, reason@),
{
    PackageError::Malformed { offset, reason }
}

/// Makes an error.
pub fn unsupported(what: &str) -> (result: PackageError)
    ensures
        result@ == Fault::Unsupported(what@),
{
    PackageError::Unsupported(crate::value::copy_text(what))
}

/// The byte at an offset.
pub open spec fn byte_at(bytes: Seq<u8>, at: nat) -> Result<nat, Fault> {
    if at < bytes.len() {
        Ok(bytes[at as int] as nat)
    } else {
        fault(at, "byte bounds"@)
    }
}

/// The number of some bytes at an offset.
pub open spec fn number(bytes: Seq<u8>, at: nat, count: nat) -> Result<nat, Fault> {
    match binary::number_at(bytes, at, count) {
        Some(value) => Ok(value),
        None => fault(at, "integer bounds"@),
    }
}

/// A number of 16 bits as a signed one.
pub open spec fn signed16(value: nat) -> int {
    if value < 0x8000 {
        value as int
    } else {
        value - 0x1_0000
    }
}

/// A number of 32 bits as a signed one.
pub open spec fn signed32(value: nat) -> int {
    if value < 0x8000_0000 {
        value as int
    } else {
        value - 0x1_0000_0000
    }
}

/// The signed number at an offset.
pub open spec fn short(bytes: Seq<u8>, at: nat) -> Result<int, Fault> {
    match number(bytes, at, 2) {
        Ok(value) => Ok(signed16(value)),
        Err(f) => Err(f),
    }
}

/// Reads a byte.
pub fn byte(bytes: &[u8], at: usize) -> (result: Result<u8, PackageError>)
    ensures
        match byte_at(bytes@, at as nat) {
            Ok(value) => result matches Ok(r) && r == value,
            Err(f) => result matches Err(e) && e@ == f,
        },
        result is Ok ==> at < bytes@.len(),
{
    if at < bytes.len() {
        Ok(bytes[at])
    } else {
        Err(malformed(at, "byte bounds"))
    }
}

/// Reads a number of 16 bits.
pub fn u16_at(bytes: &[u8], at: usize) -> (result: Result<u16, PackageError>)
    ensures
        match number(bytes@, at as nat, 2) {
            Ok(value) => result matches Ok(r) && r == value,
            Err(f) => result matches Err(e) && e@ == f,
        },
        result is Ok ==> at + 2 <= bytes@.len(),
{
    match read_u16_le(bytes, at) {
        Some(value) => Ok(value),
        None => Err(malformed(at, "integer bounds")),
    }
}

/// Reads a signed number of 16 bits.
pub fn i16_at(bytes: &[u8], at: usize) -> (result: Result<i16, PackageError>)
    ensures
        match short(bytes@, at as nat) {
            Ok(value) => result matches Ok(r) && r == value,
            Err(f) => result matches Err(e) && e@ == f,
        },
        result is Ok ==> at + 2 <= bytes@.len(),
{
    match u16_at(bytes, at) {
        Ok(value) => if value < 0x8000 {
            Ok(value as i16)
        } else {
            Ok((value as i32 - 0x1_0000) as i16)
        },
        Err(error) => Err(error),
    }
}

/// Reads a number of 32 bits.
pub fn u32_at(bytes: &[u8], at: usize) -> (result: Result<u32, PackageError>)
    ensures
        match number(bytes@, at as nat, 4) {
            Ok(value) => result matches Ok(r) && r == value,
            Err(f) => result matches Err(e) && e@ == f,
        },
        result is Ok ==> at + 4 <= bytes@.len(),
{
    match read_u32_le(bytes, at) {
        Some(value) => Ok(value),
        None => Err(malformed(at, "integer bounds")),
    }
}

/// Reads a number of 64 bits.
pub fn u64_at(bytes: &[u8], at: usize) -> (result: Result<u64, PackageError>)
    ensures
        match number(bytes@, at as nat, 8) {
            Ok(value) => result matches Ok(r) && r == value,
            Err(f) => result matches Err(e) && e@ == f,
        },
        result is Ok ==> at + 8 <= bytes@.len(),
{
    match read_u64_le(bytes, at) {
        Some(value) => Ok(value),
        None => Err(malformed(at, "integer bounds")),
    }
}

/// An offset that is given from a base.
pub open spec fn moved(base: nat, relative: nat) -> Result<nat, Fault> {
    if base + relative <= usize::MAX {
        Ok(base + relative)
    } else {
        fault(base, "relative offset"@)
    }
}

/// Adds a relative offset to a base.
pub fn add_offset(base: usize, relative: u32) -> (result: Result<usize, PackageError>)
    ensures
        match moved(base as nat, relative as nat) {
            Ok(value) => result matches Ok(r) && r == value,
            Err(f) => result matches Err(e) && e@ == f,
        },
{
    match base.checked_add(relative as usize) {
        Some(value) => Ok(value),
        None => Err(malformed(base, "relative offset")),
    }
}

/// The text of bytes from `start` up to `end`.
pub open spec fn text_between(bytes: Seq<u8>, start: nat, end: nat, reason: Seq<char>) -> Result<
    Seq<char>,
    Fault,
> {
    let content = bytes.subrange(start as int, end as int);
    if utf8::valid_utf8(content) {
        Ok(utf8::decode_utf8(content))
    } else {
        fault(start, reason)
    }
}

/// The import that a descriptor names.
pub open spec fn import_at(bytes: Seq<u8>, base: nat, bits: nat, hashes: bool) -> Result<
    ImportModel,
    Fault,
> {
    let size = (bits / 0x80_0000) % 0x100;
    let soft = bits / 0x8000_0000 != 0;
    match moved(base, bits % 0x80_0000) {
        Err(f) => Err(f),
        Ok(start) => if start + size > bytes.len() {
            fault(start, "import bounds"@)
        } else if hashes {
            if size != 8 {
                fault(start, "hashed import size"@)
            } else {
                match number(bytes, start, 8) {
                    Err(f) => Err(f),
                    Ok(hash) => Ok(ImportModel { path: PathModel::Hash(hash as u64), soft }),
                }
            }
        } else {
            match text_between(bytes, start, start + size, "import UTF-8"@) {
                Err(f) => Err(f),
                Ok(path) => Ok(ImportModel { path: PathModel::Text(path), soft }),
            }
        },
    }
}

/// The imports that `left` descriptors from `at` on name, behind those found.
pub open spec fn imports_from(
    bytes: Seq<u8>,
    base: nat,
    at: nat,
    left: nat,
    hashes: bool,
    found: Seq<ImportModel>,
) -> Result<Seq<ImportModel>, Fault>
    decreases left,
{
    if left == 0 {
        Ok(found)
    } else {
        match number(bytes, at, 4) {
            Err(f) => Err(f),
            Ok(bits) => match import_at(bytes, base, bits, hashes) {
                Err(f) => Err(f),
                Ok(import) => imports_from(
                    bytes,
                    base,
                    at + 4,
                    (left - 1) as nat,
                    hashes,
                    found.push(import),
                ),
            },
        }
    }
}

/// The imports of a package.
pub open spec fn imports_of(
    bytes: Seq<u8>,
    base: nat,
    descriptors: nat,
    data: nat,
    hashes: bool,
) -> Result<Seq<ImportModel>, Fault> {
    if data < descriptors {
        fault(base, "import pool offsets"@)
    } else {
        match moved(base, descriptors) {
            Err(f) => Err(f),
            Ok(at) => imports_from(
                bytes,
                base,
                at,
                (data - descriptors) as nat / 4,
                hashes,
                Seq::empty(),
            ),
        }
    }
}

fn read_import(bytes: &[u8], base: usize, bits: u32, hashes: bool) -> (result: Result<
    Import,
    PackageError,
>)
    ensures
        match import_at(bytes@, base as nat, bits as nat, hashes) {
            Ok(import) => result matches Ok(r) && r@ == import,
            Err(f) => result matches Err(e) && e@ == f,
        },
{
    let size: usize = ((bits / 0x80_0000) % 0x100) as usize;
    let soft: bool = bits / 0x8000_0000 != 0;
    let start: usize = match add_offset(base, bits % 0x80_0000) {
        Ok(start) => start,
        Err(error) => return Err(error),
    };
    if start > bytes.len() || bytes.len() - start < size {
        return Err(malformed(start, "import bounds"));
    }
    if hashes {
        if size != 8 {
            return Err(malformed(start, "hashed import size"));
        }
        match u64_at(bytes, start) {
            Ok(hash) => Ok(Import { path: PackagePath::Hash(hash), soft }),
            Err(error) => Err(error),
        }
    } else {
        match from_utf8(part(bytes, start, start + size)) {
            Some(path) => Ok(Import { path: PackagePath::Text(path), soft }),
            None => Err(malformed(start, "import UTF-8")),
        }
    }
}

#[verifier::loop_isolation(false)]
fn read_imports(
    bytes: &[u8],
    base: usize,
    descriptor_offset: u32,
    data_offset: u32,
    hashes: bool,
) -> (result: Result<Vec<Import>, PackageError>)
    ensures
        match imports_of(
            bytes@,
            base as nat,
            descriptor_offset as nat,
            data_offset as nat,
            hashes,
        ) {
            Ok(imports) => result matches Ok(r) && import_models(r@) == imports,
            Err(f) => result matches Err(e) && e@ == f,
        },
{
    if data_offset < descriptor_offset {
        return Err(malformed(base, "import pool offsets"));
    }
    let size: usize = bytes.len();
    let mut left: u32 = (data_offset - descriptor_offset) / 4;
    let mut at: usize = match add_offset(base, descriptor_offset) {
        Ok(at) => at,
        Err(error) => return Err(error),
    };
    let ghost wanted = imports_of(
        bytes@,
        base as nat,
        descriptor_offset as nat,
        data_offset as nat,
        hashes,
    );
    let mut imports: Vec<Import> = Vec::new();
    assert(import_models(imports@) =~= Seq::empty());
    while left > 0
        invariant
            wanted == imports_from(
                bytes@,
                base as nat,
                at as nat,
                left as nat,
                hashes,
                import_models(imports@),
            ),
        decreases left,
    {
        let bits: u32 = match u32_at(bytes, at) {
            Ok(bits) => bits,
            Err(error) => return Err(error),
        };
        let import: Import = match read_import(bytes, base, bits, hashes) {
            Ok(import) => import,
            Err(error) => return Err(error),
        };
        assert(import_models(imports@.push(import)) =~= import_models(imports@).push(import@));
        imports.push(import);
        at = at + 4;
        left = left - 1;
    }
    Ok(imports)
}

/// The name that a descriptor names.
pub open spec fn name_at(bytes: Seq<u8>, base: nat, bits: nat) -> Result<Seq<char>, Fault> {
    let size = bits / 0x100_0000;
    match moved(base, bits % 0x100_0000) {
        Err(f) => Err(f),
        Ok(start) => if start + size > bytes.len() {
            fault(start, "name bounds"@)
        } else if size == 0 || bytes[start + size - 1] != 0 {
            fault(start, "name terminator"@)
        } else {
            text_between(bytes, start, (start + size - 1) as nat, "name UTF-8"@)
        },
    }
}

/// The names that `left` descriptors from `at` on name, behind those found.
pub open spec fn names_from(
    bytes: Seq<u8>,
    base: nat,
    at: nat,
    left: nat,
    found: Seq<Seq<char>>,
) -> Result<Seq<Seq<char>>, Fault>
    decreases left,
{
    if left == 0 {
        Ok(found)
    } else {
        match number(bytes, at, 4) {
            Err(f) => Err(f),
            Ok(bits) => match name_at(bytes, base, bits) {
                Err(f) => Err(f),
                Ok(name) => names_from(bytes, base, at + 4, (left - 1) as nat, found.push(name)),
            },
        }
    }
}

/// The names of a package.
pub open spec fn names_of(bytes: Seq<u8>, base: nat, descriptors: nat, data: nat) -> Result<
    Seq<Seq<char>>,
    Fault,
> {
    if data < descriptors {
        fault(base, "name pool offsets"@)
    } else {
        match moved(base, descriptors) {
            Err(f) => Err(f),
            Ok(at) => names_from(bytes, base, at, (data - descriptors) as nat / 4, Seq::empty()),
        }
    }
}

fn read_name(bytes: &[u8], base: usize, bits: u32) -> (result: Result<String, PackageError>)
    ensures
        match name_at(bytes@, base as nat, bits as nat) {
            Ok(name) => result matches Ok(r) && r@ == name,
            Err(f) => result matches Err(e) && e@ == f,
        },
{
    let size: usize = (bits / 0x100_0000) as usize;
    let start: usize = match add_offset(base, bits % 0x100_0000) {
        Ok(start) => start,
        Err(error) => return Err(error),
    };
    if start > bytes.len() || bytes.len() - start < size {
        return Err(malformed(start, "name bounds"));
    }
    if size == 0 || bytes[start + size - 1] != 0 {
        return Err(malformed(start, "name terminator"));
    }
    match from_utf8(part(bytes, start, start + size - 1)) {
        Some(name) => Ok(name),
        None => Err(malformed(start, "name UTF-8")),
    }
}

#[verifier::loop_isolation(false)]
fn read_names(bytes: &[u8], base: usize, descriptor_offset: u32, data_offset: u32) -> (result: Result<
    Vec<String>,
    PackageError,
>)
    ensures
        match names_of(bytes@, base as nat, descriptor_offset as nat, data_offset as nat) {
            Ok(names) => result matches Ok(r) && name_texts(r@) == names,
            Err(f) => result matches Err(e) && e@ == f,
        },
{
    if data_offset < descriptor_offset {
        return Err(malformed(base, "name pool offsets"));
    }
    let size: usize = bytes.len();
    let mut left: u32 = (data_offset - descriptor_offset) / 4;
    let mut at: usize = match add_offset(base, descriptor_offset) {
        Ok(at) => at,
        Err(error) => return Err(error),
    };
    let ghost wanted = names_of(
        bytes@,
        base as nat,
        descriptor_offset as nat,
        data_offset as nat,
    );
    let mut names: Vec<String> = Vec::new();
    assert(name_texts(names@) =~= Seq::empty());
    while left > 0
        invariant
            wanted == names_from(
                bytes@,
                base as nat,
                at as nat,
                left as nat,
                name_texts(names@),
            ),
        decreases left,
    {
        let bits: u32 = match u32_at(bytes, at) {
            Ok(bits) => bits,
            Err(error) => return Err(error),
        };
        let name: String = match read_name(bytes, base, bits) {
            Ok(name) => name,
            Err(error) => return Err(error),
        };
        assert(name_texts(names@.push(name)) =~= name_texts(names@).push(name@));
        names.push(name);
        at = at + 4;
        left = left - 1;
    }
    Ok(names)
}

/// The chunks that `left` descriptors from `at` on name, behind those found.
pub open spec fn chunks_from(
    bytes: Seq<u8>,
    base: nat,
    at: nat,
    left: nat,
    found: Seq<(nat, nat)>,
) -> Result<Seq<(nat, nat)>, Fault>
    decreases left,
{
    if left == 0 {
        Ok(found)
    } else {
        match number(bytes, at, 4) {
            Err(f) => Err(f),
            Ok(kind) => match number(bytes, at + 4, 4) {
                Err(f) => Err(f),
                Ok(relative) => match moved(base, relative) {
                    Err(f) => Err(f),
                    Ok(start) => chunks_from(
                        bytes,
                        base,
                        at + 8,
                        (left - 1) as nat,
                        found.push((kind, start)),
                    ),
                },
            },
        }
    }
}

/// The chunks of a package.
pub open spec fn chunks_of(bytes: Seq<u8>, base: nat, descriptors: nat, data: nat) -> Result<
    Seq<(nat, nat)>,
    Fault,
> {
    if data < descriptors {
        fault(base, "chunk pool offsets"@)
    } else {
        match moved(base, descriptors) {
            Err(f) => Err(f),
            Ok(at) => chunks_from(bytes, base, at, (data - descriptors) as nat / 8, Seq::empty()),
        }
    }
}

#[verifier::loop_isolation(false)]
fn read_chunk_headers(
    bytes: &[u8],
    base: usize,
    descriptor_offset: u32,
    data_offset: u32,
) -> (result: Result<Vec<(usize, usize)>, PackageError>)
    ensures
        match chunks_of(bytes@, base as nat, descriptor_offset as nat, data_offset as nat) {
            Ok(chunks) => result matches Ok(r) && chunk_numbers(r@) == chunks,
            Err(f) => result matches Err(e) && e@ == f,
        },
{
    if data_offset < descriptor_offset {
        return Err(malformed(base, "chunk pool offsets"));
    }
    let size: usize = bytes.len();
    let mut left: u32 = (data_offset - descriptor_offset) / 8;
    let mut at: usize = match add_offset(base, descriptor_offset) {
        Ok(at) => at,
        Err(error) => return Err(error),
    };
    let ghost wanted = chunks_of(
        bytes@,
        base as nat,
        descriptor_offset as nat,
        data_offset as nat,
    );
    let mut chunks: Vec<(usize, usize)> = Vec::new();
    assert(chunk_numbers(chunks@) =~= Seq::empty());
    while left > 0
        invariant
            wanted == chunks_from(
                bytes@,
                base as nat,
                at as nat,
                left as nat,
                chunk_numbers(chunks@),
            ),
        decreases left,
    {
        let kind: u32 = match u32_at(bytes, at) {
            Ok(kind) => kind,
            Err(error) => return Err(error),
        };
        let relative: u32 = match u32_at(bytes, at + 4) {
            Ok(relative) => relative,
            Err(error) => return Err(error),
        };
        let start: usize = match add_offset(base, relative) {
            Ok(start) => start,
            Err(error) => return Err(error),
        };
        let chunk: (usize, usize) = (kind as usize, start);
        assert(chunk_numbers(chunks@.push(chunk)) =~= chunk_numbers(chunks@).push(
            (kind as nat, start as nat),
        ));
        chunks.push(chunk);
        at = at + 8;
        left = left - 1;
    }
    Ok(chunks)
}

/// The offsets in the header: descriptors and data of the imports, the names
/// and the chunks.
pub open spec fn section_offsets(bytes: Seq<u8>, sections: nat) -> Result<
    (nat, nat, nat, nat, nat, nat),
    Fault,
> {
    if sections == 7 {
        match (number(bytes, 8, 4), number(bytes, 12, 4), number(bytes, 16, 4)) {
            (Ok(a), Ok(b), Ok(c)) => match (
                number(bytes, 20, 4),
                number(bytes, 24, 4),
                number(bytes, 28, 4),
            ) {
                (Ok(d), Ok(e), Ok(g)) => Ok((a, b, c, d, e, g)),
                (Err(f), _, _) => Err(f),
                (_, Err(f), _) => Err(f),
                (_, _, Err(f)) => Err(f),
            },
            (Err(f), _, _) => Err(f),
            (_, Err(f), _) => Err(f),
            (_, _, Err(f)) => Err(f),
        }
    } else {
        match (number(bytes, 8, 4), number(bytes, 12, 4)) {
            (Ok(a), Ok(b)) => match (number(bytes, 16, 4), number(bytes, 20, 4)) {
                (Ok(c), Ok(d)) => Ok((0, 0, a, b, c, d)),
                (Err(f), _) => Err(f),
                (_, Err(f)) => Err(f),
            },
            (Err(f), _) => Err(f),
            (_, Err(f)) => Err(f),
        }
    }
}

/// The offsets in the header of a package.
#[derive(Debug, Clone, Copy)]
pub struct Offsets {
    pub ref_desc: u32,
    pub ref_data: u32,
    pub name_desc: u32,
    pub name_data: u32,
    pub chunk_desc: u32,
    pub chunk_data: u32,
}

/// Reads the offsets in the header.
pub fn read_offsets(bytes: &[u8], sections: u16) -> (result: Result<Offsets, PackageError>)
    ensures
        match section_offsets(bytes@, sections as nat) {
            Ok(o) => result matches Ok(r) && r.ref_desc == o.0 && r.ref_data == o.1 && r.name_desc
                == o.2 && r.name_data == o.3 && r.chunk_desc == o.4 && r.chunk_data == o.5,
            Err(f) => result matches Err(e) && e@ == f,
        },
{
    let a: u32 = match u32_at(bytes, 8) {
        Ok(value) => value,
        Err(error) => return Err(error),
    };
    let b: u32 = match u32_at(bytes, 12) {
        Ok(value) => value,
        Err(error) => return Err(error),
    };
    let c: u32 = match u32_at(bytes, 16) {
        Ok(value) => value,
        Err(error) => return Err(error),
    };
    let d: u32 = match u32_at(bytes, 20) {
        Ok(value) => value,
        Err(error) => return Err(error),
    };
    if sections != 7 {
        return Ok(
            Offsets {
                ref_desc: 0,
                ref_data: 0,
                name_desc: a,
                name_data: b,
                chunk_desc: c,
                chunk_data: d,
            },
        );
    }
    let e: u32 = match u32_at(bytes, 24) {
        Ok(value) => value,
        Err(error) => return Err(error),
    };
    let g: u32 = match u32_at(bytes, 28) {
        Ok(value) => value,
        Err(error) => return Err(error),
    };
    Ok(
        Offsets {
            ref_desc: a,
            ref_data: b,
            name_desc: c,
            name_data: d,
            chunk_desc: e,
            chunk_data: g,
        },
    )
}

/// The size of the header of a package.
pub open spec fn header_size(sections: nat) -> nat {
    if sections == 7 {
        32
    } else {
        24
    }
}

/// The tables of a package.
pub open spec fn tables(bytes: Seq<u8>, base: nat, offsets: (nat, nat, nat, nat, nat, nat), hashes: bool) -> Result<
    (Seq<ImportModel>, Seq<Seq<char>>, Seq<(nat, nat)>),
    Fault,
> {
    match imports_of(bytes, base, offsets.0, offsets.1, hashes) {
        Err(f) => Err(f),
        Ok(imports) => match names_of(bytes, base, offsets.2, offsets.3) {
            Err(f) => Err(f),
            Ok(names) => match chunks_of(bytes, base, offsets.4, offsets.5) {
                Err(f) => Err(f),
                Ok(chunks) => Ok((imports, names, chunks)),
            },
        },
    }
}

/// The layout of a package.
pub open spec fn layout_of(bytes: Seq<u8>, hashes: bool) -> Result<LayoutModel, Fault> {
    match (byte_at(bytes, 0), byte_at(bytes, 1), number(bytes, 2, 2)) {
        (Ok(version), Ok(unknown1), Ok(sections)) => match section_offsets(bytes, sections) {
            Err(f) => Err(f),
            Ok(offsets) => match number(bytes, header_size(sections) + 2, 2) {
                Err(f) => Err(f),
                Ok(cruids) => {
                    let base = header_size(sections) + 4 + cruids * 8;
                    match tables(bytes, base, offsets, hashes) {
                        Err(f) => Err(f),
                        Ok((imports, names, chunks)) => Ok(
                            LayoutModel {
                                version,
                                unknown1,
                                sections,
                                header_size: header_size(sections),
                                base,
                                names,
                                imports,
                                chunks,
                            },
                        ),
                    }
                },
            },
        },
        (Err(f), _, _) => Err(f),
        (_, Err(f), _) => Err(f),
        (_, _, Err(f)) => Err(f),
    }
}

/// Reads the layout of a package.
pub fn parse_layout(bytes: &[u8], hashes: bool) -> (result: Result<PackageLayout, PackageError>)
    ensures
        match layout_of(bytes@, hashes) {
            Ok(layout) => result matches Ok(r) && r@ == layout && r.base <= 0x10_0000,
            Err(f) => result matches Err(e) && e@ == f,
        },
{
    let version: u8 = match byte(bytes, 0) {
        Ok(value) => value,
        Err(error) => return Err(error),
    };
    let unknown1: u8 = match byte(bytes, 1) {
        Ok(value) => value,
        Err(error) => return Err(error),
    };
    let sections: u16 = match u16_at(bytes, 2) {
        Ok(value) => value,
        Err(error) => return Err(error),
    };
    let header_size: usize = if sections == 7 {
        32
    } else {
        24
    };
    let offsets: Offsets = match read_offsets(bytes, sections) {
        Ok(offsets) => offsets,
        Err(error) => return Err(error),
    };
    let cruids: u16 = match u16_at(bytes, header_size + 2) {
        Ok(value) => value,
        Err(error) => return Err(error),
    };
    let base: usize = header_size + 4 + cruids as usize * 8;
    let imports: Vec<Import> = match read_imports(
        bytes,
        base,
        offsets.ref_desc,
        offsets.ref_data,
        hashes,
    ) {
        Ok(imports) => imports,
        Err(error) => return Err(error),
    };
    let names: Vec<String> = match read_names(bytes, base, offsets.name_desc, offsets.name_data) {
        Ok(names) => names,
        Err(error) => return Err(error),
    };
    let chunks: Vec<(usize, usize)> = match read_chunk_headers(
        bytes,
        base,
        offsets.chunk_desc,
        offsets.chunk_data,
    ) {
        Ok(chunks) => chunks,
        Err(error) => return Err(error),
    };
    Ok(
        PackageLayout {
            version,
            unknown1,
            sections,
            header_size,
            base,
            names,
            imports,
            chunks,
        },
    )
}

/// Whether the imports of a package are stored as hashes: their first
/// descriptor, if there is one, says that it has eight bytes.
pub open spec fn hashed_imports(bytes: Seq<u8>) -> Result<bool, Fault> {
    match number(bytes, 2, 2) {
        Err(f) => Err(f),
        Ok(sections) => if sections != 7 {
            Ok(false)
        } else {
            match (number(bytes, 8, 4), number(bytes, 12, 4)) {
                (Err(f), _) => Err(f),
                (_, Err(f)) => Err(f),
                (Ok(descriptors), Ok(data)) => if descriptors == data {
                    Ok(false)
                } else {
                    match number(bytes, 34, 2) {
                        Err(f) => Err(f),
                        Ok(cruids) => match moved(36 + cruids * 8, descriptors) {
                            Err(f) => Err(f),
                            Ok(at) => match number(bytes, at, 4) {
                                Err(f) => Err(f),
                                Ok(bits) => Ok((bits / 0x80_0000) % 0x100 == 8),
                            },
                        },
                    }
                },
            }
        },
    }
}

/// Reports whether the imports of a package are stored as hashes of 64 bits. A
/// package without imports is reported as `false`.
pub fn imports_are_hashed(bytes: &[u8]) -> (result: Result<bool, PackageError>)
    ensures
        match hashed_imports(bytes@) {
            Ok(hashed) => result matches Ok(r) && r == hashed,
            Err(f) => result matches Err(e) && e@ == f,
        },
{
    let sections: u16 = match u16_at(bytes, 2) {
        Ok(value) => value,
        Err(error) => return Err(error),
    };
    if sections != 7 {
        return Ok(false);
    }
    let descriptors: u32 = match u32_at(bytes, 8) {
        Ok(value) => value,
        Err(error) => return Err(error),
    };
    let data: u32 = match u32_at(bytes, 12) {
        Ok(value) => value,
        Err(error) => return Err(error),
    };
    if descriptors == data {
        return Ok(false);
    }
    let cruids: u16 = match u16_at(bytes, 34) {
        Ok(value) => value,
        Err(error) => return Err(error),
    };
    let at: usize = match add_offset(36 + cruids as usize * 8, descriptors) {
        Ok(value) => value,
        Err(error) => return Err(error),
    };
    match u32_at(bytes, at) {
        Ok(bits) => Ok((bits / 0x80_0000) % 0x100 == 8),
        Err(error) => Err(error),
    }
}

} // verus!
