//! The binary glTF container.

use crate::binary;
use crate::binary::{read_u32_le, write_u32};
use crate::sequence;
use crate::sequence::{append, append_repeated, part, to_vec};
use vstd::prelude::*;

verus! {

/// The word `glTF`.
pub const GLB_MAGIC: u32 = 0x4654_6c67;

/// The word `JSON`.
pub const GLB_JSON_CHUNK: u32 = 0x4e4f_534a;

/// The word `BIN`, with a zero byte.
pub const GLB_BIN_CHUNK: u32 = 0x004e_4942;

/// Reports bytes that are not a binary glTF file, or contents too large for one.
#[derive(Debug, Clone, Copy, PartialEq, Eq, Structural)]
pub enum GlbError {
    /// The file would exceed four gigabytes.
    TooLarge,
    /// The bytes do not start like a binary glTF file.
    NotGlb,
    /// A chunk reaches beyond the file.
    ChunkExceedsFile,
    /// There is no JSON chunk.
    NoDocument,
}

impl GlbError {
    /// Says what is wrong.
    pub fn describe(self) -> (result: &'static str)
        ensures
            result@ == match self {
                GlbError::TooLarge => "GLB exceeds four gigabytes"@,
                GlbError::NotGlb => "input is not a GLB"@,
                GlbError::ChunkExceedsFile => "GLB chunk exceeds file"@,
                GlbError::NoDocument => "GLB has no JSON chunk"@,
            },
    {
        match self {
            GlbError::TooLarge => "GLB exceeds four gigabytes",
            GlbError::NotGlb => "input is not a GLB",
            GlbError::ChunkExceedsFile => "GLB chunk exceeds file",
            GlbError::NoDocument => "GLB has no JSON chunk",
        }
    }
}

/// How many bytes fill up a length to a multiple of four.
pub open spec fn padding(length: nat) -> nat {
    ((4 - length % 4) % 4) as nat
}

/// Bytes filled up to a multiple of four.
pub open spec fn padded(bytes: Seq<u8>, fill: u8) -> Seq<u8> {
    bytes + sequence::repeated(fill, padding(bytes.len()))
}

/// A chunk.
pub open spec fn chunk(kind: u32, payload: Seq<u8>) -> Seq<u8> {
    binary::le_bytes(payload.len(), 4) + binary::le_bytes(kind as nat, 4) + payload
}

/// The chunks of a file: the document filled up with spaces, and the binary
/// part, if there is one, filled up with zeros.
pub open spec fn chunks(json: Seq<u8>, binary: Option<Seq<u8>>) -> Seq<u8> {
    match binary {
        Some(bytes) => chunk(GLB_JSON_CHUNK, padded(json, 32)) + chunk(
            GLB_BIN_CHUNK,
            padded(bytes, 0),
        ),
        None => chunk(GLB_JSON_CHUNK, padded(json, 32)),
    }
}

/// How long a file is.
pub open spec fn glb_length(json: Seq<u8>, binary: Option<Seq<u8>>) -> nat {
    20 + padded(json, 32).len() + match binary {
        Some(bytes) => 8 + padded(bytes, 0).len(),
        None => 0,
    }
}

/// A file.
pub open spec fn glb(json: Seq<u8>, binary: Option<Seq<u8>>) -> Seq<u8> {
    binary::le_bytes(GLB_MAGIC as nat, 4) + binary::le_bytes(2, 4) + binary::le_bytes(
        glb_length(json, binary),
        4,
    ) + chunks(json, binary)
}

/// Bytes, if there are any.
pub open spec fn optional_bytes(bytes: Option<&[u8]>) -> Option<Seq<u8>> {
    match bytes {
        Some(bytes) => Some(bytes@),
        None => None,
    }
}

fn write_chunk(output: &mut Vec<u8>, kind: u32, payload: &[u8], fill: u8)
    requires
        old(output)@.len() + 8 + padded(payload@, fill).len() <= u32::MAX,
    ensures
        final(output)@ == old(output)@ + chunk(kind, padded(payload@, fill)),
{
    let ghost before = output@;
    let size: usize = payload.len();
    let extra: usize = (4 - size % 4) % 4;
    assert(extra == padding(size as nat));
    proof {
        binary::lemma_le_bytes_len((size + extra) as nat, 4);
        binary::lemma_le_bytes_len(kind as nat, 4);
    }
    write_u32(output, (size + extra) as u32);
    write_u32(output, kind);
    append(output, payload);
    append_repeated(output, fill, extra);
    assert(output@ =~= before + chunk(kind, padded(payload@, fill)));
}

/// Puts a document and a binary part into a binary glTF file.
pub fn encode_glb(json: &[u8], binary: Option<&[u8]>) -> (result: Result<Vec<u8>, GlbError>)
    ensures
        if glb_length(json@, optional_bytes(binary)) <= u32::MAX {
            result matches Ok(r) && r@ == glb(json@, optional_bytes(binary))
        } else {
            result matches Err(e) && e == GlbError::TooLarge
        },
{
    let json_size: u64 = json.len() as u64;
    let binary_size: u64 = match binary {
        Some(bytes) => bytes.len() as u64,
        None => 0,
    };
    if json_size > 0xffff_ffff || binary_size > 0xffff_ffff {
        return Err(GlbError::TooLarge);
    }
    let mut total: u64 = 20 + json_size + (4 - json_size % 4) % 4;
    if binary.is_some() {
        total = total + 8 + binary_size + (4 - binary_size % 4) % 4;
    }
    assert(total == glb_length(json@, optional_bytes(binary)));
    if total > 0xffff_ffff {
        return Err(GlbError::TooLarge);
    }
    proof {
        binary::lemma_le_bytes_len(GLB_MAGIC as nat, 4);
        binary::lemma_le_bytes_len(2, 4);
        binary::lemma_le_bytes_len(total as nat, 4);
        binary::lemma_le_bytes_len(padded(json@, 32).len(), 4);
        binary::lemma_le_bytes_len(GLB_JSON_CHUNK as nat, 4);
    }
    let mut output: Vec<u8> = Vec::new();
    write_u32(&mut output, GLB_MAGIC);
    write_u32(&mut output, 2);
    write_u32(&mut output, total as u32);
    write_chunk(&mut output, GLB_JSON_CHUNK, json, 32);
    if let Some(bytes) = binary {
        write_chunk(&mut output, GLB_BIN_CHUNK, bytes, 0);
    }
    assert(output@ =~= glb(json@, optional_bytes(binary)));
    Ok(output)
}

/// The last document and the last binary part among the chunks from an offset
/// on, after those found so far.
pub open spec fn found_from(
    bytes: Seq<u8>,
    at: nat,
    json: Option<Seq<u8>>,
    binary: Option<Seq<u8>>,
) -> Result<(Option<Seq<u8>>, Option<Seq<u8>>), GlbError>
    decreases bytes.len() - at,
{
    if at + 8 > bytes.len() {
        Ok((json, binary))
    } else {
        let length = binary::le_value(bytes.subrange(at as int, (at + 4) as int));
        let kind = binary::le_value(bytes.subrange((at + 4) as int, (at + 8) as int));
        let end = at + 8 + length;
        if end > bytes.len() {
            Err(GlbError::ChunkExceedsFile)
        } else {
            let payload = bytes.subrange((at + 8) as int, end as int);
            if kind == GLB_JSON_CHUNK {
                found_from(bytes, end, Some(payload), binary)
            } else if kind == GLB_BIN_CHUNK {
                found_from(bytes, end, json, Some(payload))
            } else {
                found_from(bytes, end, json, binary)
            }
        }
    }
}

/// The document and the binary part of a file.
pub open spec fn contents(bytes: Seq<u8>) -> Result<(Seq<u8>, Option<Seq<u8>>), GlbError> {
    if bytes.len() < 20 || binary::le_value(bytes.subrange(0, 4)) != GLB_MAGIC {
        Err(GlbError::NotGlb)
    } else {
        match found_from(bytes, 12, None, None) {
            Err(e) => Err(e),
            Ok((None, _)) => Err(GlbError::NoDocument),
            Ok((Some(json), binary)) => Ok((json, binary)),
        }
    }
}

/// The bytes of a vector, if there is one.
pub open spec fn optional_vector(bytes: Option<Vec<u8>>) -> Option<Seq<u8>> {
    match bytes {
        Some(bytes) => Some(bytes@),
        None => None,
    }
}

/// Takes the document and the binary part out of a binary glTF file.
#[verifier::loop_isolation(false)]
pub fn decode_glb(bytes: &[u8]) -> (result: Result<(Vec<u8>, Option<Vec<u8>>), GlbError>)
    ensures
        match contents(bytes@) {
            Ok((json, binary)) => result matches Ok(r) && r.0@ == json && optional_vector(r.1)
                == binary,
            Err(e) => result matches Err(error) && error == e,
        },
{
    let size: usize = bytes.len();
    if size < 20 {
        return Err(GlbError::NotGlb);
    }
    match read_u32_le(bytes, 0) {
        Some(word) => {
            if word != GLB_MAGIC {
                return Err(GlbError::NotGlb);
            }
        },
        None => return Err(GlbError::NotGlb),
    }
    let mut json: Option<Vec<u8>> = None;
    let mut binary: Option<Vec<u8>> = None;
    let mut at: usize = 12;
    let ghost wanted = found_from(bytes@, 12, None, None);
    while size - at >= 8
        invariant
            at <= size,
            wanted == found_from(bytes@, at as nat, optional_vector(json), optional_vector(binary)),
        decreases size - at,
    {
        let length: usize = match read_u32_le(bytes, at) {
            Some(length) => length as usize,
            None => return Err(GlbError::ChunkExceedsFile),
        };
        let kind: u32 = match read_u32_le(bytes, at + 4) {
            Some(kind) => kind,
            None => return Err(GlbError::ChunkExceedsFile),
        };
        if length > size - at - 8 {
            return Err(GlbError::ChunkExceedsFile);
        }
        let end: usize = at + 8 + length;
        if kind == GLB_JSON_CHUNK {
            json = Some(to_vec(part(bytes, at + 8, end)));
        } else if kind == GLB_BIN_CHUNK {
            binary = Some(to_vec(part(bytes, at + 8, end)));
        }
        at = end;
    }
    match json {
        Some(json) => Ok((json, binary)),
        None => Err(GlbError::NoDocument),
    }
}

proof fn lemma_word(whole: Seq<u8>, at: nat, value: nat)
    requires
        value < 0x1_0000_0000,
        at + 4 <= whole.len(),
        whole.subrange(at as int, (at + 4) as int) == binary::le_bytes(value, 4),
    ensures
        binary::le_value(whole.subrange(at as int, (at + 4) as int)) == value,
{
    binary::lemma_byte_ranges();
    binary::law_read_written(value, 4);
}

/// Reading a file gives back the document and the binary part that were put
/// into it, each filled up to a multiple of four.
pub proof fn law_decode_encode(json: Seq<u8>, binary: Option<Seq<u8>>)
    requires
        glb_length(json, binary) <= u32::MAX,
    ensures
        contents(glb(json, binary)) == Ok::<(Seq<u8>, Option<Seq<u8>>), GlbError>(
            (
                padded(json, 32),
                match binary {
                    Some(bytes) => Some(padded(bytes, 0)),
                    None => None,
                },
            ),
        ),
{
    let whole = glb(json, binary);
    let text = padded(json, 32);
    let end = 20 + text.len();
    binary::lemma_le_bytes_len(GLB_MAGIC as nat, 4);
    binary::lemma_le_bytes_len(2, 4);
    binary::lemma_le_bytes_len(glb_length(json, binary), 4);
    binary::lemma_le_bytes_len(text.len(), 4);
    binary::lemma_le_bytes_len(GLB_JSON_CHUNK as nat, 4);
    assert(whole.subrange(0, 4) =~= binary::le_bytes(GLB_MAGIC as nat, 4));
    lemma_word(whole, 0, GLB_MAGIC as nat);
    assert(whole.subrange(12, 16) =~= binary::le_bytes(text.len(), 4));
    lemma_word(whole, 12, text.len());
    assert(whole.subrange(16, 20) =~= binary::le_bytes(GLB_JSON_CHUNK as nat, 4));
    lemma_word(whole, 16, GLB_JSON_CHUNK as nat);
    assert(whole.subrange(20, end as int) =~= text);
    assert(found_from(whole, 12, None, None) == found_from(whole, end, Some(text), None));
    match binary {
        None => {
            assert(whole.len() == end);
        },
        Some(bytes) => {
            let rest = padded(bytes, 0);
            binary::lemma_le_bytes_len(rest.len(), 4);
            binary::lemma_le_bytes_len(GLB_BIN_CHUNK as nat, 4);
            assert(whole.len() == end + 8 + rest.len());
            assert(whole.subrange(end as int, (end + 4) as int) =~= binary::le_bytes(rest.len(), 4));
            lemma_word(whole, end, rest.len());
            assert(whole.subrange((end + 4) as int, (end + 8) as int) =~= binary::le_bytes(GLB_BIN_CHUNK as nat, 4));
            lemma_word(whole, end + 4, GLB_BIN_CHUNK as nat);
            assert(whole.subrange((end + 8) as int, (end + 8 + rest.len()) as int) =~= rest);
            assert(found_from(whole, end, Some(text), None) == found_from(
                whole,
                end + 8 + rest.len(),
                Some(text),
                Some(rest),
            ));
        },
    }
}

} // verus!
