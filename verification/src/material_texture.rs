//! Texture resources as images of four bytes per pixel.

use crate::block_textures;
use crate::block_textures::{
    blank, decode_bc1, decode_bc3, decode_bc4, decode_bc5, decode_bc6_signed, decode_bc6_unsigned,
    decode_bc7, has_narrow_modes, sizes,
};
use crate::material;
use crate::material::{
    array, malformed, member, required_usize, string, usize_or_zero, usize_value, Fault,
    MaterialError,
};
use crate::material_mask;
use crate::material_mask::grey_rgba;
use crate::sequence::{part, to_vec};
use crate::text;
use crate::text::{decode_base64, same_text};
use crate::value;
use crate::value::{copy_text, Value};
use vstd::arithmetic::div_mod::lemma_fundamental_div_mod_converse;
use vstd::prelude::*;

verus! {

/// How the pixels of a texture are stored.
#[derive(Debug, Clone, Copy, PartialEq, Eq, Structural)]
pub enum TextureFormat {
    /// Blocks without alpha.
    Bc1,
    /// Blocks with alpha.
    Bc3,
    /// Blocks of one channel.
    Bc4,
    /// Blocks of two channels.
    Bc5,
    /// Blocks of colour in high quality.
    Bc7,
    /// Blocks of unsigned half floats.
    HalfHdr,
    /// Blocks of signed half floats.
    HalfHdrSigned,
    /// One byte per pixel.
    Grayscale,
    /// Four bytes per pixel.
    TrueColor,
}

/// The format that a texture has: its compression, and the raw format of one
/// that is not compressed.
pub open spec fn format_of(compression: Seq<char>, raw: Seq<char>) -> Option<TextureFormat> {
    if compression == "TCM_DXTNoAlpha"@ {
        Some(TextureFormat::Bc1)
    } else if compression == "TCM_DXTAlpha"@ || compression == "TCM_DXTAlphaLinear"@ {
        Some(TextureFormat::Bc3)
    } else if compression == "TCM_Normalmap"@ || compression == "TCM_QualityRG"@ {
        Some(TextureFormat::Bc5)
    } else if compression == "TCM_QualityR"@ {
        Some(TextureFormat::Bc4)
    } else if compression == "TCM_QualityColor"@ {
        Some(TextureFormat::Bc7)
    } else if compression == "TCM_HalfHDR"@ {
        Some(TextureFormat::HalfHdr)
    } else if compression == "TCM_HalfHDRSigned"@ {
        Some(TextureFormat::HalfHdrSigned)
    } else if compression == "TCM_None"@ {
        if raw == "TRF_Grayscale"@ {
            Some(TextureFormat::Grayscale)
        } else {
            Some(TextureFormat::TrueColor)
        }
    } else {
        None
    }
}

fn find_format(compression: &str, raw: &str) -> (result: Option<TextureFormat>)
    ensures
        result == format_of(compression@, raw@),
{
    if same_text(compression, "TCM_DXTNoAlpha") {
        Some(TextureFormat::Bc1)
    } else if same_text(compression, "TCM_DXTAlpha") || same_text(
        compression,
        "TCM_DXTAlphaLinear",
    ) {
        Some(TextureFormat::Bc3)
    } else if same_text(compression, "TCM_Normalmap") || same_text(compression, "TCM_QualityRG") {
        Some(TextureFormat::Bc5)
    } else if same_text(compression, "TCM_QualityR") {
        Some(TextureFormat::Bc4)
    } else if same_text(compression, "TCM_QualityColor") {
        Some(TextureFormat::Bc7)
    } else if same_text(compression, "TCM_HalfHDR") {
        Some(TextureFormat::HalfHdr)
    } else if same_text(compression, "TCM_HalfHDRSigned") {
        Some(TextureFormat::HalfHdrSigned)
    } else if same_text(compression, "TCM_None") {
        if same_text(raw, "TRF_Grayscale") {
            Some(TextureFormat::Grayscale)
        } else {
            Some(TextureFormat::TrueColor)
        }
    } else {
        None
    }
}

/// A texture as it is stored.
pub ghost struct TextureModel {
    pub compression: Seq<char>,
    pub format: TextureFormat,
    pub data: Seq<u8>,
    pub width: nat,
    pub height: nat,
}

/// The part of a texture's bytes that its first mip map takes.
pub open spec fn mip_of(mip: value::Model) -> Result<(nat, nat), Fault> {
    match material::field(mip, "placement"@) {
        Err(f) => Err(f),
        Ok(placement) => match value::member(placement, "size"@) {
            None => material::bad("texture mip has no size"@),
            Some(size) => match material::size_of(size) {
                None => material::bad("texture mip size is invalid"@),
                Some(size) => Ok((material::size_or_zero(placement, "offset"@), size)),
            },
        },
    }
}

/// The blob of a texture.
pub open spec fn blob_of(root: value::Model) -> Result<value::Model, Fault> {
    match material::field(root, "renderTextureResource"@) {
        Err(f) => Err(f),
        Ok(resource) => match material::field(resource, "renderResourceBlobPC"@) {
            Err(f) => Err(f),
            Ok(blob) => material::field(blob, "Data"@),
        },
    }
}

/// The size of a texture and the place of its first mip map.
pub open spec fn header_of(header: value::Model) -> Result<(nat, nat, nat, nat), Fault> {
    match material::field(header, "sizeInfo"@) {
        Err(f) => Err(f),
        Ok(info) => match material::size_in(info, "width"@) {
            Err(f) => Err(f),
            Ok(width) => match material::size_in(info, "height"@) {
                Err(f) => Err(f),
                Ok(height) => match material::items_in(header, "mipMapInfo"@) {
                    Err(f) => Err(f),
                    Ok(mips) => if mips.len() == 0 {
                        material::bad("texture has no mipmaps"@)
                    } else {
                        match mip_of(mips[0]) {
                            Err(f) => Err(f),
                            Ok((offset, size)) => Ok((width, height, offset, size)),
                        }
                    },
                },
            },
        },
    }
}

/// The bytes of a texture's first mip map.
pub open spec fn data_of(blob: value::Model, offset: nat, size: nat) -> Result<Seq<u8>, Fault> {
    match material_mask::bytes_in(blob, "textureData"@) {
        Err(f) => Err(f),
        Ok(bytes) => if offset + size > usize::MAX {
            material::bad("texture mip range overflows"@)
        } else if offset + size > bytes.len() {
            material::bad("texture mip range is outside its buffer"@)
        } else {
            Ok(bytes.subrange(offset as int, (offset + size) as int))
        },
    }
}

/// The raw format of a texture that is not compressed.
pub open spec fn raw_format(root: value::Model) -> Seq<char> {
    let found = match value::member(root, "setup"@) {
        Some(setup) => value::member(setup, "rawFormat"@),
        None => None,
    };
    match found {
        Some(value::Model::Text(raw)) => raw,
        _ => "TRF_TrueColor"@,
    }
}

/// A texture as its document gives it.
pub open spec fn texture_of(document: value::Model) -> Result<TextureModel, Fault> {
    match material::field(document, "Data"@) {
        Err(f) => Err(f),
        Ok(data) => match material::field(data, "RootChunk"@) {
            Err(f) => Err(f),
            Ok(root) => match material::field(root, "setup"@) {
                Err(f) => Err(f),
                Ok(setup) => match material::text_in(setup, "compression"@) {
                    Err(f) => Err(f),
                    Ok(compression) => match blob_of(root) {
                        Err(f) => Err(f),
                        Ok(blob) => match material::field(blob, "header"@) {
                            Err(f) => Err(f),
                            Ok(header) => match header_of(header) {
                                Err(f) => Err(f),
                                Ok((width, height, offset, size)) => match data_of(
                                    blob,
                                    offset,
                                    size,
                                ) {
                                    Err(f) => Err(f),
                                    Ok(data) => match format_of(compression, raw_format(root)) {
                                        None => Err(Fault::UnsupportedTexture(compression)),
                                        Some(format) => Ok(
                                            TextureModel {
                                                compression,
                                                format,
                                                data,
                                                width,
                                                height,
                                            },
                                        ),
                                    },
                                },
                            },
                        },
                    },
                },
            },
        },
    }
}

/// A texture as it is stored.
#[derive(Debug, PartialEq, Eq)]
pub struct Texture {
    pub compression: String,
    pub format: TextureFormat,
    pub data: Vec<u8>,
    pub width: usize,
    pub height: usize,
}

impl View for Texture {
    type V = TextureModel;

    open spec fn view(&self) -> TextureModel {
        TextureModel {
            compression: self.compression@,
            format: self.format,
            data: self.data@,
            width: self.width as nat,
            height: self.height as nat,
        }
    }
}

fn read_mip(mip: &Value) -> (result: Result<(usize, usize), MaterialError>)
    ensures
        match mip_of(mip@) {
            Ok((offset, size)) => result matches Ok(r) && r.0 == offset && r.1 == size,
            Err(f) => result matches Err(e) && e@ == f,
        },
{
    let placement: &Value = match member(mip, "placement") {
        Ok(placement) => placement,
        Err(error) => return Err(error),
    };
    match placement.get("size") {
        None => Err(malformed("texture mip has no size")),
        Some(size) => match usize_value(size) {
            None => Err(malformed("texture mip size is invalid")),
            Some(size) => Ok((usize_or_zero(placement, "offset"), size)),
        },
    }
}

fn find_blob<'a>(root: &'a Value) -> (result: Result<&'a Value, MaterialError>)
    ensures
        match blob_of(root@) {
            Ok(blob) => result matches Ok(r) && r@ == blob,
            Err(f) => result matches Err(e) && e@ == f,
        },
{
    let resource: &Value = match member(root, "renderTextureResource") {
        Ok(resource) => resource,
        Err(error) => return Err(error),
    };
    let blob: &Value = match member(resource, "renderResourceBlobPC") {
        Ok(blob) => blob,
        Err(error) => return Err(error),
    };
    member(blob, "Data")
}

fn read_header(header: &Value) -> (result: Result<(usize, usize, usize, usize), MaterialError>)
    ensures
        match header_of(header@) {
            Ok((width, height, offset, size)) => result matches Ok(r) && r.0 == width && r.1
                == height && r.2 == offset && r.3 == size,
            Err(f) => result matches Err(e) && e@ == f,
        },
{
    let info: &Value = match member(header, "sizeInfo") {
        Ok(info) => info,
        Err(error) => return Err(error),
    };
    let width: usize = match required_usize(info, "width") {
        Ok(width) => width,
        Err(error) => return Err(error),
    };
    let height: usize = match required_usize(info, "height") {
        Ok(height) => height,
        Err(error) => return Err(error),
    };
    let mips: &Vec<Value> = match array(header, "mipMapInfo") {
        Ok(mips) => mips,
        Err(error) => return Err(error),
    };
    proof {
        value::lemma_models(mips@);
    }
    if mips.len() == 0 {
        return Err(malformed("texture has no mipmaps"));
    }
    match read_mip(&mips[0]) {
        Ok((offset, size)) => Ok((width, height, offset, size)),
        Err(error) => Err(error),
    }
}

fn read_data(blob: &Value, offset: usize, size: usize) -> (result: Result<Vec<u8>, MaterialError>)
    ensures
        match data_of(blob@, offset as nat, size as nat) {
            Ok(data) => result matches Ok(r) && r@ == data,
            Err(f) => result matches Err(e) && e@ == f,
        },
{
    let holder: &Value = match member(blob, "textureData") {
        Ok(holder) => holder,
        Err(error) => return Err(error),
    };
    let encoded: &str = match string(holder, "Bytes") {
        Ok(encoded) => encoded,
        Err(error) => return Err(error),
    };
    let bytes: Vec<u8> = match decode_base64(encoded) {
        Some(bytes) => bytes,
        None => return Err(MaterialError::Base64),
    };
    if size > usize::MAX - offset {
        return Err(malformed("texture mip range overflows"));
    }
    if offset + size > bytes.len() {
        return Err(malformed("texture mip range is outside its buffer"));
    }
    Ok(to_vec(part(bytes.as_slice(), offset, offset + size)))
}

fn find_raw_format<'a>(root: &'a Value) -> (result: &'a str)
    ensures
        result@ == raw_format(root@),
{
    let found: Option<&'a Value> = match root.get("setup") {
        Some(setup) => setup.get("rawFormat"),
        None => None,
    };
    match found {
        Some(Value::Text(raw)) => raw.as_str(),
        _ => "TRF_TrueColor",
    }
}

/// Reads a texture out of its document.
pub fn read_texture(document: &Value) -> (result: Result<Texture, MaterialError>)
    ensures
        match texture_of(document@) {
            Ok(texture) => result matches Ok(r) && r@ == texture,
            Err(f) => result matches Err(e) && e@ == f,
        },
{
    let data: &Value = match member(document, "Data") {
        Ok(data) => data,
        Err(error) => return Err(error),
    };
    let root: &Value = match member(data, "RootChunk") {
        Ok(root) => root,
        Err(error) => return Err(error),
    };
    let setup: &Value = match member(root, "setup") {
        Ok(setup) => setup,
        Err(error) => return Err(error),
    };
    let compression: &str = match string(setup, "compression") {
        Ok(compression) => compression,
        Err(error) => return Err(error),
    };
    let blob: &Value = match find_blob(root) {
        Ok(blob) => blob,
        Err(error) => return Err(error),
    };
    let header: &Value = match member(blob, "header") {
        Ok(header) => header,
        Err(error) => return Err(error),
    };
    let (width, height, offset, size): (usize, usize, usize, usize) = match read_header(header) {
        Ok(parts) => parts,
        Err(error) => return Err(error),
    };
    let bytes: Vec<u8> = match read_data(blob, offset, size) {
        Ok(bytes) => bytes,
        Err(error) => return Err(error),
    };
    match find_format(compression, find_raw_format(root)) {
        None => Err(MaterialError::UnsupportedTexture { compression: copy_text(compression) }),
        Some(format) => Ok(
            Texture { compression: copy_text(compression), format, data: bytes, width, height },
        ),
    }
}

/// The four bytes of a pixel as they are shown; one channel is shown in grey.
pub open spec fn shown_byte(pixel: u32, channel: int, single: bool) -> u8 {
    if channel == 3 {
        (pixel / 0x100_0000) as u8
    } else if channel == 0 || single {
        (pixel / 0x1_0000 % 256) as u8
    } else if channel == 1 {
        (pixel / 256 % 256) as u8
    } else {
        (pixel % 256) as u8
    }
}

/// An image from its last row to its first.
pub open spec fn flipped(pixels: Seq<u32>, width: nat, single: bool) -> Seq<u8> {
    let rows = pixels.len() / width;
    let shift = pixels.len() - rows * width;
    Seq::new(
        4 * (rows * width),
        |i: int|
            {
                let column = (i / 4) % (width as int);
                let row = rows - 1 - (i / 4) / (width as int);
                shown_byte(pixels[shift + row * width + column], i % 4, single)
            },
    )
}

/// Puts the last row of an image first, as pixels of four bytes.
pub fn flip_rows(pixels: &Vec<u32>, width: usize, single: bool) -> (result: Vec<u8>)
    requires
        width > 0,
    ensures
        result@ == flipped(pixels@, width as nat, single),
{
    let ghost wanted = flipped(pixels@, width as nat, single);
    let rows: usize = pixels.len() / width;
    let size: usize = pixels.len();
    assert(rows * width <= size && 0 <= rows * width) by (nonlinear_arith)
        requires
            rows == size / width,
            width > 0,
    ;
    let shift: usize = size - rows * width;
    let mut rgba: Vec<u8> = Vec::new();
    let mut done: usize = 0;
    assert(0 * width == 0) by (nonlinear_arith);
    while done < rows
        invariant
            done <= rows,
            width > 0,
            size == pixels@.len(),
            rows == pixels@.len() / (width as nat),
            rows * width <= size,
            shift == size - rows * width,
            wanted == flipped(pixels@, width as nat, single),
            rgba@.len() == 4 * (done * width),
            forall|i: int| 0 <= i < rgba@.len() ==> #[trigger] rgba@[i] == wanted[i],
        decreases rows - done,
    {
        let row: usize = rows - 1 - done;
        assert(row * width + width <= rows * width && 0 <= row * width) by (nonlinear_arith)
            requires
                row < rows,
                width > 0,
        ;
        let base: usize = shift + row * width;
        let mut x: usize = 0;
        while x < width
            invariant
                done < rows,
                x <= width,
                width > 0,
                size == pixels@.len(),
                rows == pixels@.len() / (width as nat),
                rows * width <= size,
                shift == size - rows * width,
                row == rows - 1 - done,
                base == shift + row * width,
                base + width <= size,
                wanted == flipped(pixels@, width as nat, single),
                rgba@.len() == 4 * (done * width + x),
                forall|i: int| 0 <= i < rgba@.len() ==> #[trigger] rgba@[i] == wanted[i],
            decreases width - x,
        {
            let pixel: u32 = pixels[base + x];
            let red: u8 = (pixel / 0x1_0000 % 256) as u8;
            let green: u8 = (pixel / 256 % 256) as u8;
            let blue: u8 = (pixel % 256) as u8;
            let alpha: u8 = (pixel / 0x100_0000) as u8;
            proof {
                let at = done * width + x;
                lemma_fundamental_div_mod_converse(
                    at as int,
                    width as int,
                    done as int,
                    x as int,
                );
                assert(done * width + x < rows * width) by (nonlinear_arith)
                    requires
                        done < rows,
                        x < width,
                ;
                assert((4 * at) / 4 == at && (4 * at + 1) / 4 == at && (4 * at + 2) / 4 == at && (4
                    * at + 3) / 4 == at);
                assert(wanted[4 * at] == shown_byte(pixel, 0, single));
                assert(wanted[4 * at + 1] == shown_byte(pixel, 1, single));
                assert(wanted[4 * at + 2] == shown_byte(pixel, 2, single));
                assert(wanted[4 * at + 3] == shown_byte(pixel, 3, single));
            }
            rgba.push(red);
            rgba.push(if single {
                red
            } else {
                green
            });
            rgba.push(if single {
                red
            } else {
                blue
            });
            rgba.push(alpha);
            x = x + 1;
        }
        assert((done + 1) * width == done * width + width) by (nonlinear_arith);
        done = done + 1;
    }
    assert(rgba@ =~= wanted);
    rgba
}

/// The pixels of a texture that is stored in blocks.
pub open spec fn block_pixels(t: TextureModel) -> Seq<u32> {
    match t.format {
        TextureFormat::Bc1 => block_textures::bc1_pixels(t.data, t.width, t.height),
        TextureFormat::Bc3 => block_textures::bc3_pixels(
            t.data,
            t.width,
            t.height,
            usize::BITS as nat,
        ),
        TextureFormat::Bc4 => block_textures::bc4_pixels(
            t.data,
            t.width,
            t.height,
            usize::BITS as nat,
        ),
        TextureFormat::Bc5 => block_textures::bc5_pixels(
            t.data,
            t.width,
            t.height,
            usize::BITS as nat,
        ),
        TextureFormat::HalfHdr => block_textures::bc6_unsigned_pixels(t.data, t.width, t.height),
        TextureFormat::HalfHdrSigned => block_textures::bc6_signed_pixels(
            t.data,
            t.width,
            t.height,
        ),
        _ => block_textures::bc7_pixels(t.data, t.width, t.height),
    }
}

/// Whether a texture is of half floats, and has a block of their widest mode.
pub open spec fn has_wide_block(t: TextureModel) -> bool {
    &&& t.format == TextureFormat::HalfHdr || t.format == TextureFormat::HalfHdrSigned
    &&& t.data.len() >= block_textures::block_bytes(t.width, t.height, 16)
    &&& !block_textures::narrow_modes(t.data, block_textures::block_count(t.width, t.height))
}

/// How many bytes a block takes.
pub open spec fn block_size(format: TextureFormat) -> nat {
    match format {
        TextureFormat::Bc1 => 8,
        TextureFormat::Bc4 => 8,
        _ => 16,
    }
}

/// The image of a texture, four bytes per pixel. A texture of half floats with a
/// block of their widest mode has none here: its pixels are handed to
/// [`flip_rows`].
pub open spec fn image_of(t: TextureModel) -> Result<Option<Seq<u8>>, Fault> {
    if t.width * t.height > usize::MAX || 4 * (t.width * t.height) > usize::MAX
        || block_textures::block_bytes(t.width, t.height, 16) > usize::MAX {
        material::bad("texture dimensions overflow"@)
    } else {
        match t.format {
            TextureFormat::Grayscale => if t.data.len() >= t.width * t.height {
                Ok(Some(material_mask::grey(t.data.subrange(0, (t.width * t.height) as int))))
            } else {
                true_color(t)
            },
            TextureFormat::TrueColor => true_color(t),
            _ => if t.data.len() < block_textures::block_bytes(
                t.width,
                t.height,
                block_size(t.format),
            ) {
                Err(Fault::Texture(t.compression, t.width, t.height, t.data.len()))
            } else if has_wide_block(t) {
                Ok(None)
            } else if t.width == 0 {
                Ok(Some(Seq::empty()))
            } else {
                Ok(Some(flipped(block_pixels(t), t.width, t.format == TextureFormat::Bc4)))
            },
        }
    }
}

/// The image of a texture with four bytes per pixel.
pub open spec fn true_color(t: TextureModel) -> Result<Option<Seq<u8>>, Fault> {
    if t.data.len() >= 4 * (t.width * t.height) {
        Ok(Some(t.data.subrange(0, 4 * (t.width * t.height) as int)))
    } else {
        material::bad("uncompressed texture payload is too small"@)
    }
}

fn copy_true_color(t: &Texture, pixels: usize) -> (result: Result<Option<Vec<u8>>, MaterialError>)
    requires
        pixels == t.width * t.height,
        4 * pixels <= usize::MAX,
    ensures
        match true_color(t@) {
            Ok(Some(image)) => result matches Ok(Some(r)) && r@ == image,
            Ok(None) => result matches Ok(None),
            Err(f) => result matches Err(e) && e@ == f,
        },
{
    if t.data.len() >= 4 * pixels {
        Ok(Some(to_vec(part(t.data.as_slice(), 0, 4 * pixels))))
    } else {
        Err(malformed("uncompressed texture payload is too small"))
    }
}

fn decode_blocks(t: &Texture, pixels: usize) -> (result: Option<Vec<u32>>)
    requires
        pixels == t.width * t.height,
        block_textures::block_bytes(t.width as nat, t.height as nat, 16) <= usize::MAX,
        block_textures::block_bytes(t.width as nat, t.height as nat, 8) <= usize::MAX,
        !(t.format is Grayscale) && !(t.format is TrueColor),
        !has_wide_block(t@),
    ensures
        if t@.data.len() < block_textures::block_bytes(
            t@.width,
            t@.height,
            block_size(t.format),
        ) {
            result is None
        } else {
            result matches Some(r) && r@ == block_pixels(t@)
        },
{
    let mut image: Vec<u32> = blank(pixels);
    let data: &[u8] = t.data.as_slice();
    let done: bool = match t.format {
        TextureFormat::Bc1 => decode_bc1(data, t.width, t.height, &mut image),
        TextureFormat::Bc3 => decode_bc3(data, t.width, t.height, &mut image),
        TextureFormat::Bc4 => decode_bc4(data, t.width, t.height, &mut image),
        TextureFormat::Bc5 => decode_bc5(data, t.width, t.height, &mut image),
        TextureFormat::HalfHdr => decode_bc6_unsigned(data, t.width, t.height, &mut image),
        TextureFormat::HalfHdrSigned => decode_bc6_signed(data, t.width, t.height, &mut image),
        _ => decode_bc7(data, t.width, t.height, &mut image),
    };
    if done {
        Some(image)
    } else {
        None
    }
}

/// Tells whether a texture of half floats has a block of their widest mode.
fn is_wide(t: &Texture) -> (result: bool)
    requires
        block_textures::block_bytes(t.width as nat, t.height as nat, 16) <= usize::MAX,
    ensures
        result == has_wide_block(t@),
{
    match t.format {
        TextureFormat::HalfHdr => {},
        TextureFormat::HalfHdrSigned => {},
        _ => return false,
    }
    let ghost blocks = block_textures::block_count(t.width as nat, t.height as nat);
    let columns: usize = t.width / 4 + if t.width % 4 > 0 {
        1
    } else {
        0
    };
    let rows: usize = t.height / 4 + if t.height % 4 > 0 {
        1
    } else {
        0
    };
    proof {
        assert(columns == (t.width + 3) / 4);
        assert(rows == (t.height + 3) / 4);
        assert(columns * rows == blocks);
        assert(blocks <= blocks * 16);
    }
    let count: usize = columns * rows;
    if t.data.len() / 16 < count {
        return false;
    }
    !has_narrow_modes(t.data.as_slice(), count)
}

/// Makes the image of a texture, four bytes per pixel. A texture of half floats
/// with a block of their widest mode has none here: its pixels are handed to
/// [`flip_rows`].
pub fn texture_image(t: &Texture) -> (result: Result<Option<Vec<u8>>, MaterialError>)
    ensures
        match image_of(t@) {
            Ok(Some(image)) => result matches Ok(Some(r)) && r@ == image,
            Ok(None) => result matches Ok(None),
            Err(f) => result matches Err(e) && e@ == f,
        },
{
    let pixels: usize = match sizes(t.width, t.height, 16) {
        Some((pixels, _)) => pixels,
        None => return Err(malformed("texture dimensions overflow")),
    };
    if pixels > usize::MAX / 4 {
        return Err(malformed("texture dimensions overflow"));
    }
    proof {
        let blocks = ((t.width + 3) / 4) * ((t.height + 3) / 4);
        assert(blocks * 8 <= blocks * 16) by (nonlinear_arith)
            requires
                blocks >= 0,
        ;
        assert(((t.width + 3) / 4) * ((t.height + 3) / 4) >= 0) by (nonlinear_arith)
            requires
                t.width >= 0,
                t.height >= 0,
        ;
    }
    match t.format {
        TextureFormat::Grayscale => {
            if t.data.len() >= pixels {
                Ok(Some(grey_rgba(part(t.data.as_slice(), 0, pixels))))
            } else {
                copy_true_color(t, pixels)
            }
        },
        TextureFormat::TrueColor => copy_true_color(t, pixels),
        _ => if is_wide(t) {
            Ok(None)
        } else {
            match decode_blocks(t, pixels) {
                None => Err(
                    MaterialError::Texture {
                        compression: copy_text(t.compression.as_str()),
                        width: t.width,
                        height: t.height,
                        size: t.data.len(),
                    },
                ),
                Some(image) => {
                    if t.width == 0 {
                        let nothing: Vec<u8> = Vec::new();
                        assert(nothing@ =~= Seq::empty());
                        return Ok(Some(nothing));
                    }
                    Ok(Some(flip_rows(&image, t.width, matches!(t.format, TextureFormat::Bc4))))
                },
            }
        },
    }
}

} // verus!
