//! What the pixels and the materials of an export are.

use crate::material_texture;
use crate::material_texture::TextureFormat;
use crate::pbr;
use vstd::arithmetic::div_mod::lemma_fundamental_div_mod_converse;
use vstd::prelude::*;

verus! {

/// A pixel: its four channels in one word, the blue one in the lowest byte.
pub ghost struct Pixel {
    pub red: u8,
    pub green: u8,
    pub blue: u8,
    pub alpha: u8,
}

/// The word of a pixel.
pub open spec fn word_of(p: Pixel) -> nat {
    p.blue as nat + 0x100 * p.green as nat + 0x1_0000 * p.red as nat + 0x100_0000 * p.alpha as nat
}

proof fn lemma_channels(pixel: u32, p: Pixel)
    requires
        pixel == word_of(p),
    ensures
        pixel % 256 == p.blue,
        pixel / 256 % 256 == p.green,
        pixel / 0x1_0000 % 256 == p.red,
        pixel / 0x100_0000 == p.alpha,
{
    let h2 = p.red as int + 0x100 * p.alpha as int;
    let h1 = p.green as int + 0x100 * h2;
    lemma_fundamental_div_mod_converse(pixel as int, 0x100, h1, p.blue as int);
    lemma_fundamental_div_mod_converse(h1, 0x100, h2, p.green as int);
    lemma_fundamental_div_mod_converse(
        pixel as int,
        0x1_0000,
        h2,
        p.blue as int + 0x100 * p.green as int,
    );
    lemma_fundamental_div_mod_converse(h2, 0x100, p.alpha as int, p.red as int);
    lemma_fundamental_div_mod_converse(
        pixel as int,
        0x100_0000,
        p.alpha as int,
        p.blue as int + 0x100 * p.green as int + 0x1_0000 * p.red as int,
    );
}

/// An image shows its rows from the last to the first, each pixel as red, green, blue and
/// alpha. Of an image of one channel, the red one stands for all colours.
pub proof fn law_image_shown(
    pixels: Seq<u32>,
    width: nat,
    height: nat,
    single: bool,
    x: nat,
    y: nat,
    p: Pixel,
)
    requires
        x < width,
        y < height,
        pixels.len() == width * height,
        pixels[x + (height - 1 - y) * width] == word_of(p),
    ensures
        ({
            let shown = material_texture::flipped(pixels, width, single);
            let at = 4 * (x + y * width) as int;
            &&& shown.len() == 4 * (width * height)
            &&& 0 <= at && at + 3 < shown.len()
            &&& shown[at] == p.red
            &&& shown[at + 1] == if single {
                p.red
            } else {
                p.green
            }
            &&& shown[at + 2] == if single {
                p.red
            } else {
                p.blue
            }
            &&& shown[at + 3] == p.alpha
        }),
{
    let w = width as int;
    let h = height as int;
    assert(width * height == h * w) by (nonlinear_arith)
        requires
            w == width,
            h == height,
    ;
    lemma_fundamental_div_mod_converse(pixels.len() as int, w, h, 0);
    let spot = x + y * w;
    assert(0 <= spot < h * w) by (nonlinear_arith)
        requires
            spot == x + y * w,
            x < w,
            y < h,
    ;
    lemma_fundamental_div_mod_converse(spot, w, y as int, x as int);
    lemma_channels(pixels[x + (height - 1 - y) * width], p);
    let at = 4 * spot;
    assert(at / 4 == spot && (at + 1) / 4 == spot && (at + 2) / 4 == spot && (at + 3) / 4 == spot);
    assert(at % 4 == 0 && (at + 1) % 4 == 1 && (at + 2) % 4 == 2 && (at + 3) % 4 == 3);
}

/// The compression of a texture chooses its format; one that is not compressed is grey
/// or of four channels.
pub proof fn law_formats(raw: Seq<char>)
    ensures
        material_texture::format_of("TCM_DXTNoAlpha"@, raw) == Some(TextureFormat::Bc1),
        material_texture::format_of("TCM_DXTAlpha"@, raw) == Some(TextureFormat::Bc3),
        material_texture::format_of("TCM_DXTAlphaLinear"@, raw) == Some(TextureFormat::Bc3),
        material_texture::format_of("TCM_Normalmap"@, raw) == Some(TextureFormat::Bc5),
        material_texture::format_of("TCM_QualityRG"@, raw) == Some(TextureFormat::Bc5),
        material_texture::format_of("TCM_QualityR"@, raw) == Some(TextureFormat::Bc4),
        material_texture::format_of("TCM_QualityColor"@, raw) == Some(TextureFormat::Bc7),
        material_texture::format_of("TCM_HalfHDR"@, raw) == Some(TextureFormat::HalfHdr),
        material_texture::format_of("TCM_HalfHDRSigned"@, raw) == Some(
            TextureFormat::HalfHdrSigned,
        ),
        material_texture::format_of("TCM_None"@, raw) == Some(
            if raw == "TRF_Grayscale"@ {
                TextureFormat::Grayscale
            } else {
                TextureFormat::TrueColor
            },
        ),
{
    reveal_strlit("TCM_DXTNoAlpha");
    reveal_strlit("TCM_DXTAlpha");
    reveal_strlit("TCM_DXTAlphaLinear");
    reveal_strlit("TCM_Normalmap");
    reveal_strlit("TCM_QualityRG");
    reveal_strlit("TCM_QualityR");
    reveal_strlit("TCM_QualityColor");
    reveal_strlit("TCM_HalfHDR");
    reveal_strlit("TCM_HalfHDRSigned");
    reveal_strlit("TCM_None");
    assert("TCM_DXTNoAlpha"@.len() == 14 && "TCM_DXTAlpha"@.len() == 12
        && "TCM_DXTAlphaLinear"@.len() == 18 && "TCM_Normalmap"@.len() == 13
        && "TCM_QualityRG"@.len() == 13 && "TCM_QualityR"@.len() == 12
        && "TCM_QualityColor"@.len() == 16 && "TCM_HalfHDR"@.len() == 11
        && "TCM_HalfHDRSigned"@.len() == 17 && "TCM_None"@.len() == 8);
    assert("TCM_Normalmap"@[4] == 'N' && "TCM_QualityRG"@[4] == 'Q' && "TCM_DXTAlpha"@[4] == 'D'
        && "TCM_QualityR"@[4] == 'Q');
}

/// The materials of an appearance are spread evenly over the chunks: a chunk has the
/// material whose share of the chunks it stands in.
pub proof fn law_spread(names: Seq<Seq<char>>, index: nat, chunks: nat, k: nat)
    requires
        0 < names.len() <= chunks,
        index < chunks,
        index * names.len() <= usize::MAX,
        k * chunks <= index * names.len() < (k + 1) * chunks,
    ensures
        k < names.len(),
        pbr::spread_material(names, index, chunks) == names[k as int],
{
    let n = names.len();
    assert((k + 1) * chunks == k * chunks + chunks) by (nonlinear_arith);
    lemma_fundamental_div_mod_converse(
        (index * n) as int,
        chunks as int,
        k as int,
        index * n - k * chunks,
    );
    assert(k < n) by (nonlinear_arith)
        requires
            k * chunks <= index * n,
            index < chunks,
            n > 0,
    ;
}

} // verus!
