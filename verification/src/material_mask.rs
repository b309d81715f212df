//! Multilayer masks: layers that are put together from the tiles of an atlas.

use crate::binary;
use crate::binary::read_u32_le;
use crate::block_textures;
use crate::block_textures::{blank, decode_bc4, sizes};
use crate::material;
use crate::material::{malformed, member, required_usize, string, Fault, MaterialError};
use crate::number_text;
use crate::number_text::decimal_text;
use crate::text;
use crate::text::{decode_base64, push_text};
use crate::value;
use crate::value::Value;
use vstd::arithmetic::div_mod::lemma_fundamental_div_mod_converse;
use vstd::arithmetic::mul::lemma_mul_upper_bound;
use vstd::prelude::*;

verus! {

/// A number without its `n` low bits.
pub open spec fn shifted(bits: nat, n: nat) -> nat
    decreases n,
{
    if n == 0 {
        bits
    } else {
        shifted(bits, (n - 1) as nat) / 2
    }
}

/// How many of the `n` low bits of a number are set.
pub open spec fn set_bits(bits: nat, n: nat) -> nat
    decreases n,
{
    if n == 0 {
        0
    } else {
        set_bits(bits, (n - 1) as nat) + shifted(bits, (n - 1) as nat) % 2
    }
}

/// Whether a layer is in a set of layers. There are 32.
pub open spec fn has_layer(bits: nat, layer: nat) -> bool {
    layer < 32 && shifted(bits, layer) % 2 == 1
}

/// How many tiles it takes to cover a length.
pub open spec fn tiles_across(length: nat, tile: nat) -> nat {
    if length % tile > 0 {
        length / tile + 1
    } else {
        length / tile
    }
}

/// What a mask is put together from.
pub ghost struct MaskModel {
    pub atlas: Seq<u8>,
    pub atlas_width: nat,
    pub tiles: Seq<u32>,
    pub width: nat,
    pub height: nat,
    pub low_width: nat,
    pub low_height: nat,
    pub tile_size: nat,
}

/// Where the tile of a declaration has a pixel, along one side: the tile's
/// place among tiles with a border, and the pixel's place in the tile.
pub open spec fn atlas_place(at: nat, shift: nat, place: nat, tile: nat) -> nat {
    shifted(at, shift) % tile + 1 + place * (tile + 2)
}

/// The pixel of a layer, looked up through the tiles from an offset on.
pub open spec fn tile_pixel(
    m: MaskModel,
    x: nat,
    y: nat,
    layer: nat,
    offset: nat,
    scale: nat,
    across: nat,
) -> Option<u8> {
    let tile = across * (y / m.tile_size / scale) + x / m.tile_size / scale + offset;
    if 2 * tile + 1 >= m.tiles.len() || !has_layer(m.tiles[(2 * tile + 1) as int] as nat, layer) {
        None
    } else {
        let at = m.tiles[(2 * tile) as int] + set_bits(m.tiles[(2 * tile + 1) as int] as nat, layer);
        if at >= m.tiles.len() {
            None
        } else {
            let declaration = m.tiles[at] as nat;
            let column = atlas_place(
                x,
                declaration / 0x10_0000 % 16,
                declaration % 1024,
                m.tile_size,
            );
            let row = atlas_place(
                y,
                declaration / 0x100_0000 % 16,
                declaration / 1024 % 1024,
                m.tile_size,
            );
            let index = column + row * m.atlas_width;
            if index < m.atlas.len() {
                Some(m.atlas[index as int])
            } else {
                None
            }
        }
    }
}

/// How much smaller the coarse tiles are.
pub open spec fn coarse_scale(width: nat, low_width: nat) -> nat {
    if low_width == 0 || width < low_width {
        1
    } else {
        width / low_width
    }
}

/// The pixel of a layer: of the fine tiles, else of the coarse tiles, else
/// zero.
pub open spec fn layer_pixel(m: MaskModel, x: nat, y: nat, layer: nat) -> u8 {
    let across = tiles_across(m.width, m.tile_size);
    let down = tiles_across(m.height, m.tile_size);
    let scale = coarse_scale(m.width, m.low_width);
    match tile_pixel(m, x, y, layer, 0, 1, across) {
        Some(pixel) => pixel,
        None => match tile_pixel(
            m,
            x,
            y,
            layer,
            across * down,
            scale,
            tiles_across(m.width / scale, m.tile_size),
        ) {
            Some(pixel) => pixel,
            None => 0,
        },
    }
}

/// The pixels of a layer, row by row.
pub open spec fn layer_pixels(m: MaskModel, layer: nat) -> Seq<u8> {
    Seq::new(
        m.width * m.height,
        |i: int|
            layer_pixel(m, (i % (m.width as int)) as nat, (i / (m.width as int)) as nat, layer),
    )
}

/// Whether a tile has a layer.
pub open spec fn is_fine_tile(tiles: Seq<u32>, i: int, layer: nat) -> bool {
    2 * i + 1 < tiles.len() && has_layer(tiles[2 * i + 1] as nat, layer)
}

/// Whether a layer has any fine tile.
pub open spec fn has_fine_tile(tiles: Seq<u32>, count: nat, layer: nat) -> bool {
    exists|i: int| 0 <= i < count && #[trigger] is_fine_tile(tiles, i, layer)
}

/// The pixels of an image of another size, each taken where it stands.
pub open spec fn nearest(
    source: Seq<u8>,
    source_width: nat,
    source_height: nat,
    width: nat,
    height: nat,
) -> Seq<u8> {
    Seq::new(
        width * height,
        |i: int|
            {
                let x = i % (width as int);
                let y = i / (width as int);
                source[(x * source_width) / (width as int) + ((y * source_height) / (height as int))
                    * source_width]
            },
    )
}

fn shift_down(bits: usize, n: usize) -> (result: usize)
    ensures
        result == shifted(bits as nat, n as nat),
{
    let mut rest: usize = bits;
    let mut i: usize = 0;
    while i < n
        invariant
            i <= n,
            rest == shifted(bits as nat, i as nat),
        decreases n - i,
    {
        rest = rest / 2;
        i = i + 1;
    }
    rest
}

fn find_layer(bits: u32, layer: usize) -> (result: Option<usize>)
    ensures
        result is Some <==> has_layer(bits as nat, layer as nat),
        result matches Some(n) ==> n == set_bits(bits as nat, layer as nat) && n <= 32,
{
    if layer >= 32 {
        return None;
    }
    let mut rest: u32 = bits;
    let mut count: usize = 0;
    let mut i: usize = 0;
    while i < layer
        invariant
            i <= layer < 32,
            count <= i,
            rest == shifted(bits as nat, i as nat),
            count == set_bits(bits as nat, i as nat),
        decreases layer - i,
    {
        count = count + (rest % 2) as usize;
        rest = rest / 2;
        i = i + 1;
    }
    if rest % 2 == 1 {
        Some(count)
    } else {
        None
    }
}

fn count_tiles(length: usize, tile: usize) -> (result: usize)
    requires
        tile > 0,
    ensures
        result == tiles_across(length as nat, tile as nat),
        result <= length,
{
    assert(length / tile <= length && (length % tile > 0 ==> length / tile < length))
        by (nonlinear_arith)
        requires
            tile > 0,
    ;
    if length % tile > 0 {
        length / tile + 1
    } else {
        length / tile
    }
}

/// What a mask is put together from: an atlas of tiles with a border, and the
/// declarations of tiles.
#[derive(Debug)]
pub struct Mask {
    pub atlas: Vec<u8>,
    pub atlas_width: usize,
    pub tiles: Vec<u32>,
    pub width: usize,
    pub height: usize,
    pub low_width: usize,
    pub low_height: usize,
    pub tile_size: usize,
}

impl View for Mask {
    type V = MaskModel;

    open spec fn view(&self) -> MaskModel {
        MaskModel {
            atlas: self.atlas@,
            atlas_width: self.atlas_width as nat,
            tiles: self.tiles@,
            width: self.width as nat,
            height: self.height as nat,
            low_width: self.low_width as nat,
            low_height: self.low_height as nat,
            tile_size: self.tile_size as nat,
        }
    }
}

fn place_in_atlas(at: usize, shift: usize, place: usize, tile: usize) -> (result: Option<usize>)
    requires
        tile > 0,
    ensures
        match result {
            Some(r) => r == atlas_place(at as nat, shift as nat, place as nat, tile as nat),
            None => atlas_place(at as nat, shift as nat, place as nat, tile as nat) > usize::MAX,
        },
{
    let local: usize = shift_down(at, shift) % tile;
    if tile > usize::MAX - 2 {
        if place == 0 {
            assert(place * (tile + 2) == 0) by (nonlinear_arith)
                requires
                    place == 0,
            ;
            return if local == usize::MAX {
                None
            } else {
                Some(local + 1)
            };
        }
        assert(place * (tile + 2) >= tile + 2) by (nonlinear_arith)
            requires
                place >= 1,
        ;
        return None;
    }
    assert(place * (tile + 2) >= 0) by (nonlinear_arith);
    match place.checked_mul(tile + 2) {
        None => None,
        Some(base) => {
            if base > usize::MAX - 1 - local {
                None
            } else {
                Some(local + 1 + base)
            }
        },
    }
}

/// Looks a pixel up through the tiles from an offset on.
pub fn decode_mask_pixel(
    m: &Mask,
    x: usize,
    y: usize,
    layer: usize,
    offset: usize,
    scale: usize,
    across: usize,
) -> (result: Option<u8>)
    requires
        m.tile_size > 0,
        scale > 0,
    ensures
        result == tile_pixel(
            m@,
            x as nat,
            y as nat,
            layer as nat,
            offset as nat,
            scale as nat,
            across as nat,
        ),
{
    let tile_words: usize = m.tiles.len();
    let atlas_size: usize = m.atlas.len();
    let down: usize = y / m.tile_size / scale;
    let right: usize = x / m.tile_size / scale;
    assert(across * down >= 0) by (nonlinear_arith);
    let tile: usize = match across.checked_mul(down) {
        None => return None,
        Some(base) => {
            if right > usize::MAX - base || offset > usize::MAX - base - right {
                return None;
            }
            base + right + offset
        },
    };
    if tile >= m.tiles.len() / 2 {
        return None;
    }
    let first: usize = match find_layer(m.tiles[2 * tile + 1], layer) {
        Some(first) => first,
        None => return None,
    };
    let start: u32 = m.tiles[2 * tile];
    if start as u64 + first as u64 >= m.tiles.len() as u64 {
        return None;
    }
    let declaration: u32 = m.tiles[start as usize + first];
    let column: usize = match place_in_atlas(
        x,
        (declaration / 0x10_0000 % 16) as usize,
        (declaration % 1024) as usize,
        m.tile_size,
    ) {
        Some(column) => column,
        None => {
            proof {
                let d = declaration as nat;
                let row = atlas_place(
                    y as nat,
                    d / 0x100_0000 % 16,
                    d / 1024 % 1024,
                    m.tile_size as nat,
                );
                assert(row * (m.atlas_width as nat) >= 0) by (nonlinear_arith);
            }
            return None;
        },
    };
    let base: usize = if m.atlas_width == 0 {
        proof {
            let d = declaration as nat;
            let row = atlas_place(
                y as nat,
                d / 0x100_0000 % 16,
                d / 1024 % 1024,
                m.tile_size as nat,
            );
            assert(row * 0 == 0) by (nonlinear_arith);
        }
        0
    } else {
        let row: usize = match place_in_atlas(
            y,
            (declaration / 0x100_0000 % 16) as usize,
            (declaration / 1024 % 1024) as usize,
            m.tile_size,
        ) {
            Some(row) => row,
            None => {
                proof {
                    let d = declaration as nat;
                    let row = atlas_place(
                        y as nat,
                        d / 0x100_0000 % 16,
                        d / 1024 % 1024,
                        m.tile_size as nat,
                    );
                    let wide = m.atlas_width as nat;
                    assert(row * wide >= row) by (nonlinear_arith)
                        requires
                            wide >= 1,
                    ;
                }
                return None;
            },
        };
        match row.checked_mul(m.atlas_width) {
            Some(base) => base,
            None => return None,
        }
    };
    if base > usize::MAX - column || column + base >= m.atlas.len() {
        return None;
    }
    Some(m.atlas[column + base])
}

/// Puts the pixels of a layer together.
pub fn decode_mask_layer(m: &Mask, layer: usize) -> (result: Vec<u8>)
    requires
        m.tile_size > 0,
        m.width * m.height <= usize::MAX,
    ensures
        result@ == layer_pixels(m@, layer as nat),
{
    let across: usize = count_tiles(m.width, m.tile_size);
    let down: usize = count_tiles(m.height, m.tile_size);
    proof {
        lemma_mul_upper_bound(across as int, m.width as int, down as int, m.height as int);
    }
    let low: usize = across * down;
    let scale: usize = if m.low_width == 0 || m.width < m.low_width {
        1
    } else {
        m.width / m.low_width
    };
    assert(scale > 0) by {
        if !(m.low_width == 0 || m.width < m.low_width) {
            let wide = m.width;
            let less = m.low_width;
            assert(wide / less >= 1) by (nonlinear_arith)
                requires
                    less > 0,
                    wide >= less,
            ;
        }
    }
    let low_across: usize = count_tiles(m.width / scale, m.tile_size);
    let mut output: Vec<u8> = Vec::new();
    let mut y: usize = 0;
    assert(0 * m.width == 0) by (nonlinear_arith);
    while y < m.height
        invariant
            y <= m.height,
            m.tile_size > 0,
            scale > 0,
            scale == coarse_scale(m.width as nat, m.low_width as nat),
            across == tiles_across(m.width as nat, m.tile_size as nat),
            down == tiles_across(m.height as nat, m.tile_size as nat),
            low == across * down,
            low_across == tiles_across((m.width / scale) as nat, m.tile_size as nat),
            m.width * m.height <= usize::MAX,
            output@.len() == y * m.width,
            forall|i: int|
                0 <= i < output@.len() ==> #[trigger] output@[i] == layer_pixels(
                    m@,
                    layer as nat,
                )[i],
        decreases m.height - y,
    {
        let ghost start = output@.len();
        let mut x: usize = 0;
        while x < m.width
            invariant
                y < m.height,
                x <= m.width,
                m.tile_size > 0,
                scale > 0,
                scale == coarse_scale(m.width as nat, m.low_width as nat),
                across == tiles_across(m.width as nat, m.tile_size as nat),
                down == tiles_across(m.height as nat, m.tile_size as nat),
                low == across * down,
                low_across == tiles_across((m.width / scale) as nat, m.tile_size as nat),
                start == y * m.width,
                output@.len() == start + x,
                forall|i: int|
                    0 <= i < output@.len() ==> #[trigger] output@[i] == layer_pixels(
                        m@,
                        layer as nat,
                    )[i],
            decreases m.width - x,
        {
            let pixel: u8 = match decode_mask_pixel(m, x, y, layer, 0, 1, across) {
                Some(pixel) => pixel,
                None => match decode_mask_pixel(m, x, y, layer, low, scale, low_across) {
                    Some(pixel) => pixel,
                    None => 0,
                },
            };
            proof {
                let i = y * m.width + x;
                lemma_fundamental_div_mod_converse(i as int, m.width as int, y as int, x as int);
                let wide = m.width;
                let tall = m.height;
                assert(y * wide + x < wide * tall) by (nonlinear_arith)
                    requires
                        y < tall,
                        x < wide,
                ;
                assert(layer_pixels(m@, layer as nat)[i] == pixel);
            }
            output.push(pixel);
            x = x + 1;
        }
        proof {
            let wide = m.width;
            assert((y + 1) * wide == y * wide + wide) by (nonlinear_arith);
        }
        y = y + 1;
    }
    proof {
        let wide = m.width;
        let tall = m.height;
        assert(tall * wide == wide * tall) by (nonlinear_arith);
    }
    assert(output@ =~= layer_pixels(m@, layer as nat));
    output
}

/// Tests whether a layer has any fine tile.
pub fn has_high_resolution(
    tiles: &Vec<u32>,
    width: usize,
    height: usize,
    tile_size: usize,
    layer: usize,
) -> (result: bool)
    requires
        tile_size > 0,
        width * height <= usize::MAX,
    ensures
        result == has_fine_tile(
            tiles@,
            tiles_across(width as nat, tile_size as nat) * tiles_across(
                height as nat,
                tile_size as nat,
            ),
            layer as nat,
        ),
{
    let across: usize = count_tiles(width, tile_size);
    let down: usize = count_tiles(height, tile_size);
    proof {
        lemma_mul_upper_bound(across as int, width as int, down as int, height as int);
    }
    let count: usize = across * down;
    let mut i: usize = 0;
    while i < count && i < tiles.len() / 2
        invariant
            i <= count,
            count == tiles_across(width as nat, tile_size as nat) * tiles_across(
                height as nat,
                tile_size as nat,
            ),
            forall|k: int| 0 <= k < i ==> !#[trigger] is_fine_tile(tiles@, k, layer as nat),
        decreases count - i,
    {
        if find_layer(tiles[2 * i + 1], layer).is_some() {
            assert(is_fine_tile(tiles@, i as int, layer as nat));
            return true;
        }
        i = i + 1;
    }
    false
}

/// Makes an image smaller or larger by taking each pixel where it stands.
pub fn downscale_nearest(
    source: &Vec<u8>,
    source_width: usize,
    source_height: usize,
    width: usize,
    height: usize,
) -> (result: Vec<u8>)
    requires
        source@.len() == source_width * source_height,
        width * height > 0 ==> source_width > 0 && source_height > 0,
        width * height <= usize::MAX,
    ensures
        result@ == nearest(
            source@,
            source_width as nat,
            source_height as nat,
            width as nat,
            height as nat,
        ),
{
    let ghost wanted = nearest(
        source@,
        source_width as nat,
        source_height as nat,
        width as nat,
        height as nat,
    );
    let mut output: Vec<u8> = Vec::new();
    let mut y: usize = 0;
    assert(0 * width == 0) by (nonlinear_arith);
    while y < height
        invariant
            y <= height,
            source@.len() == source_width * source_height,
            width * height > 0 ==> source_width > 0 && source_height > 0,
            width * height <= usize::MAX,
            wanted == nearest(
                source@,
                source_width as nat,
                source_height as nat,
                width as nat,
                height as nat,
            ),
            output@.len() == y * width,
            forall|i: int| 0 <= i < output@.len() ==> #[trigger] output@[i] == wanted[i],
        decreases height - y,
    {
        let ghost start = output@.len();
        let mut x: usize = 0;
        while x < width
            invariant
                y < height,
                x <= width,
                source@.len() == source_width * source_height,
                width * height > 0 ==> source_width > 0 && source_height > 0,
                wanted == nearest(
                    source@,
                    source_width as nat,
                    source_height as nat,
                    width as nat,
                    height as nat,
                ),
                start == y * width,
                output@.len() == start + x,
                forall|i: int| 0 <= i < output@.len() ==> #[trigger] output@[i] == wanted[i],
            decreases width - x,
        {
            assert(width * height > 0) by (nonlinear_arith)
                requires
                    width > 0,
                    height > 0,
            ;
            let column: usize = scaled(x, source_width, width);
            let row: usize = scaled(y, source_height, height);
            assert(column + row * source_width < source_width * source_height && row * source_width
                >= 0) by (nonlinear_arith)
                requires
                    column < source_width,
                    row < source_height,
            ;
            proof {
                let i = y * width + x;
                lemma_fundamental_div_mod_converse(i as int, width as int, y as int, x as int);
                assert(y * width + x < width * height) by (nonlinear_arith)
                    requires
                        y < height,
                        x < width,
                ;
                assert(wanted[i] == source@[column + row * source_width]);
            }
            let size: usize = source.len();
            output.push(source[column + row * source_width]);
            x = x + 1;
        }
        proof {
            assert((y + 1) * width == y * width + width) by (nonlinear_arith);
        }
        y = y + 1;
    }
    proof {
        assert(height * width == width * height) by (nonlinear_arith);
    }
    assert(output@ =~= wanted);
    output
}

fn scaled(at: usize, from: usize, to: usize) -> (result: usize)
    requires
        at < to,
        from > 0,
    ensures
        result == (at * from) / (to as int),
        result < from,
{
    assert(at * from <= 0xffff_ffff_ffff_ffff * 0xffff_ffff_ffff_ffff) by (nonlinear_arith)
        requires
            at <= 0xffff_ffff_ffff_ffff,
            from <= 0xffff_ffff_ffff_ffff,
    ;
    assert(0 <= (at * from) / (to as int) < from) by (nonlinear_arith)
        requires
            at < to,
            from > 0,
    ;
    ((at as u128 * from as u128) / to as u128) as usize
}

/// An image of one byte per pixel, shown in grey.
pub open spec fn grey(pixels: Seq<u8>) -> Seq<u8> {
    Seq::new(
        4 * pixels.len(),
        |i: int|
            if i % 4 == 3 {
                255
            } else {
                pixels[i / 4]
            },
    )
}

/// Shows an image of one byte per pixel in grey.
pub fn grey_rgba(pixels: &[u8]) -> (result: Vec<u8>)
    ensures
        result@ == grey(pixels@),
{
    let mut rgba: Vec<u8> = Vec::new();
    let mut i: usize = 0;
    while i < pixels.len()
        invariant
            i <= pixels@.len(),
            rgba@.len() == 4 * i,
            forall|k: int| 0 <= k < 4 * i ==> #[trigger] rgba@[k] == grey(pixels@)[k],
        decreases pixels@.len() - i,
    {
        rgba.push(pixels[i]);
        rgba.push(pixels[i]);
        rgba.push(pixels[i]);
        rgba.push(255);
        i = i + 1;
    }
    assert(rgba@ =~= grey(pixels@));
    rgba
}

/// Words of 32 bits out of bytes; a rest is left out.
pub open spec fn words_of(bytes: Seq<u8>) -> Seq<u32> {
    Seq::new(
        bytes.len() / 4,
        |i: int| binary::le_value(bytes.subrange(4 * i, 4 * i + 4)) as u32,
    )
}

fn read_words(bytes: &[u8]) -> (result: Vec<u32>)
    ensures
        result@ == words_of(bytes@),
{
    let count: usize = bytes.len() / 4;
    let mut words: Vec<u32> = Vec::new();
    let mut i: usize = 0;
    while i < count
        invariant
            i <= count == bytes@.len() / 4,
            words@.len() == i,
            forall|k: int| 0 <= k < i ==> #[trigger] words@[k] == words_of(bytes@)[k],
        decreases count - i,
    {
        let size: usize = bytes.len();
        let word: u32 = match read_u32_le(bytes, 4 * i) {
            Some(word) => word,
            None => 0,
        };
        words.push(word);
        i = i + 1;
    }
    assert(words@ =~= words_of(bytes@));
    words
}

/// The third byte of each pixel.
pub open spec fn red_bytes(pixels: Seq<u32>) -> Seq<u8> {
    pixels.map_values(|pixel: u32| (pixel / 0x1_0000 % 256) as u8)
}

fn list_red(pixels: &Vec<u32>) -> (result: Vec<u8>)
    ensures
        result@ == red_bytes(pixels@),
{
    let mut out: Vec<u8> = Vec::new();
    let mut i: usize = 0;
    while i < pixels.len()
        invariant
            i <= pixels@.len(),
            out@ =~= red_bytes(pixels@).subrange(0, i as int),
        decreases pixels@.len() - i,
    {
        out.push((pixels[i] / 0x1_0000 % 256) as u8);
        i = i + 1;
    }
    assert(out@ =~= red_bytes(pixels@));
    out
}

/// The blob of a mask.
pub open spec fn blob_of(document: value::Model) -> Result<value::Model, Fault> {
    material::path_in(
        document,
        seq![
            "Data"@,
            "RootChunk"@,
            "renderResourceBlob"@,
            "renderResourceBlobPC"@,
            "Data"@,
        ],
    )
}

/// The sizes that the header of a mask gives: atlas, count of layers, fine and
/// coarse size, tiles.
pub ghost struct HeaderModel {
    pub atlas_width: nat,
    pub atlas_height: nat,
    pub layers: nat,
    pub width: nat,
    pub height: nat,
    pub low_width: nat,
    pub low_height: nat,
    pub tile_size: nat,
}

/// The sizes that the header of a mask gives.
pub open spec fn header_of(header: value::Model) -> Result<HeaderModel, Fault> {
    match material::size_in(header, "atlasWidth"@) {
        Err(f) => Err(f),
        Ok(atlas_width) => match material::size_in(header, "atlasHeight"@) {
            Err(f) => Err(f),
            Ok(atlas_height) => match material::size_in(header, "numLayers"@) {
                Err(f) => Err(f),
                Ok(layers) => match material::size_in(header, "maskWidth"@) {
                    Err(f) => Err(f),
                    Ok(width) => match material::size_in(header, "maskHeight"@) {
                        Err(f) => Err(f),
                        Ok(height) => match material::size_in(header, "maskWidthLow"@) {
                            Err(f) => Err(f),
                            Ok(low_width) => match material::size_in(header, "maskHeightLow"@) {
                                Err(f) => Err(f),
                                Ok(low_height) => match material::size_in(
                                    header,
                                    "maskTileSize"@,
                                ) {
                                    Err(f) => Err(f),
                                    Ok(tile_size) => if tile_size == 0 {
                                        material::bad("multilayer mask tile size is zero"@)
                                    } else {
                                        Ok(
                                            HeaderModel {
                                                atlas_width,
                                                atlas_height,
                                                layers,
                                                width,
                                                height,
                                                low_width,
                                                low_height,
                                                tile_size,
                                            },
                                        )
                                    },
                                },
                            },
                        },
                    },
                },
            },
        },
    }
}

/// The bytes of a member of a blob.
pub open spec fn bytes_in(blob: value::Model, name: Seq<char>) -> Result<Seq<u8>, Fault> {
    match material::field(blob, name) {
        Err(f) => Err(f),
        Ok(holder) => match material::text_in(holder, "Bytes"@) {
            Err(f) => Err(f),
            Ok(encoded) => match text::base64_bytes(encoded) {
                None => Err(Fault::Base64),
                Some(bytes) => Ok(bytes),
            },
        },
    }
}

/// What a mask is put together from, and how many layers it has. Sizes that
/// the machine cannot hold are refused.
pub open spec fn mask_of(document: value::Model) -> Result<(MaskModel, nat), Fault> {
    match blob_of(document) {
        Err(f) => Err(f),
        Ok(blob) => match material::field(blob, "header"@) {
            Err(f) => Err(f),
            Ok(header) => match header_of(header) {
                Err(f) => Err(f),
                Ok(h) => match bytes_in(blob, "atlasData"@) {
                    Err(f) => Err(f),
                    Ok(packed) => match block_textures::image_sizes(
                        h.atlas_width,
                        h.atlas_height,
                        8,
                    ) {
                        None => material::bad("multilayer mask dimensions overflow"@),
                        Some((_, size)) => if packed.len() < size {
                            Err(Fault::Atlas)
                        } else {
                            match bytes_in(blob, "tilesData"@) {
                                Err(f) => Err(f),
                                Ok(tiles) => if h.width * h.height > usize::MAX || h.low_width
                                    * h.low_height > usize::MAX {
                                    material::bad("multilayer mask dimensions overflow"@)
                                } else {
                                    Ok(
                                        (
                                            MaskModel {
                                                atlas: red_bytes(
                                                    block_textures::bc4_pixels(
                                                        packed,
                                                        h.atlas_width,
                                                        h.atlas_height,
                                                        usize::BITS as nat,
                                                    ),
                                                ),
                                                atlas_width: h.atlas_width,
                                                tiles: words_of(tiles),
                                                width: h.width,
                                                height: h.height,
                                                low_width: h.low_width,
                                                low_height: h.low_height,
                                                tile_size: h.tile_size,
                                            },
                                            h.layers,
                                        ),
                                    )
                                },
                            }
                        },
                    },
                },
            },
        },
    }
}

/// Finds the blob of a mask.
fn find_blob<'a>(document: &'a Value) -> (result: Result<&'a Value, MaterialError>)
    ensures
        match blob_of(document@) {
            Ok(blob) => result matches Ok(r) && r@ == blob,
            Err(f) => result matches Err(e) && e@ == f,
        },
{
    proof {
        let path = seq![
            "Data"@,
            "RootChunk"@,
            "renderResourceBlob"@,
            "renderResourceBlobPC"@,
            "Data"@,
        ];
        reveal_with_fuel(material::path_in, 6);
        assert(path.drop_last() =~= seq![
            "Data"@,
            "RootChunk"@,
            "renderResourceBlob"@,
            "renderResourceBlobPC"@,
        ]);
        assert(path.drop_last().drop_last() =~= seq![
            "Data"@,
            "RootChunk"@,
            "renderResourceBlob"@,
        ]);
        assert(path.drop_last().drop_last().drop_last() =~= seq!["Data"@, "RootChunk"@]);
        assert(path.drop_last().drop_last().drop_last().drop_last() =~= seq!["Data"@]);
        assert(path.drop_last().drop_last().drop_last().drop_last().drop_last() =~= Seq::empty());
    }
    let data: &Value = match member(document, "Data") {
        Ok(data) => data,
        Err(error) => return Err(error),
    };
    let root: &Value = match member(data, "RootChunk") {
        Ok(root) => root,
        Err(error) => return Err(error),
    };
    let resource: &Value = match member(root, "renderResourceBlob") {
        Ok(resource) => resource,
        Err(error) => return Err(error),
    };
    let blob: &Value = match member(resource, "renderResourceBlobPC") {
        Ok(blob) => blob,
        Err(error) => return Err(error),
    };
    member(blob, "Data")
}

fn read_bytes(blob: &Value, name: &str) -> (result: Result<Vec<u8>, MaterialError>)
    ensures
        match bytes_in(blob@, name@) {
            Ok(bytes) => result matches Ok(r) && r@ == bytes,
            Err(f) => result matches Err(e) && e@ == f,
        },
{
    let holder: &Value = match member(blob, name) {
        Ok(holder) => holder,
        Err(error) => return Err(error),
    };
    let encoded: &str = match string(holder, "Bytes") {
        Ok(encoded) => encoded,
        Err(error) => return Err(error),
    };
    match decode_base64(encoded) {
        Some(bytes) => Ok(bytes),
        None => Err(MaterialError::Base64),
    }
}

#[derive(Clone, Copy)]
struct Header {
    atlas_width: usize,
    atlas_height: usize,
    layers: usize,
    width: usize,
    height: usize,
    low_width: usize,
    low_height: usize,
    tile_size: usize,
}

impl View for Header {
    type V = HeaderModel;

    closed spec fn view(&self) -> HeaderModel {
        HeaderModel {
            atlas_width: self.atlas_width as nat,
            atlas_height: self.atlas_height as nat,
            layers: self.layers as nat,
            width: self.width as nat,
            height: self.height as nat,
            low_width: self.low_width as nat,
            low_height: self.low_height as nat,
            tile_size: self.tile_size as nat,
        }
    }
}

fn read_header(header: &Value) -> (result: Result<Header, MaterialError>)
    ensures
        match header_of(header@) {
            Ok(h) => result matches Ok(r) && r@ == h,
            Err(f) => result matches Err(e) && e@ == f,
        },
{
    let atlas_width: usize = match required_usize(header, "atlasWidth") {
        Ok(n) => n,
        Err(error) => return Err(error),
    };
    let atlas_height: usize = match required_usize(header, "atlasHeight") {
        Ok(n) => n,
        Err(error) => return Err(error),
    };
    let layers: usize = match required_usize(header, "numLayers") {
        Ok(n) => n,
        Err(error) => return Err(error),
    };
    let width: usize = match required_usize(header, "maskWidth") {
        Ok(n) => n,
        Err(error) => return Err(error),
    };
    let height: usize = match required_usize(header, "maskHeight") {
        Ok(n) => n,
        Err(error) => return Err(error),
    };
    let low_width: usize = match required_usize(header, "maskWidthLow") {
        Ok(n) => n,
        Err(error) => return Err(error),
    };
    let low_height: usize = match required_usize(header, "maskHeightLow") {
        Ok(n) => n,
        Err(error) => return Err(error),
    };
    let tile_size: usize = match required_usize(header, "maskTileSize") {
        Ok(n) => n,
        Err(error) => return Err(error),
    };
    if tile_size == 0 {
        return Err(malformed("multilayer mask tile size is zero"));
    }
    Ok(Header { atlas_width, atlas_height, layers, width, height, low_width, low_height, tile_size })
}

/// Reads what a mask is put together from, and how many layers it has.
pub fn read_mask(document: &Value) -> (result: Result<(Mask, usize), MaterialError>)
    ensures
        match mask_of(document@) {
            Ok((m, layers)) => result matches Ok(r) && r.0@ == m && r.1 == layers,
            Err(f) => result matches Err(e) && e@ == f,
        },
{
    let blob: &Value = match find_blob(document) {
        Ok(blob) => blob,
        Err(error) => return Err(error),
    };
    let header: &Value = match member(blob, "header") {
        Ok(header) => header,
        Err(error) => return Err(error),
    };
    let h: Header = match read_header(header) {
        Ok(h) => h,
        Err(error) => return Err(error),
    };
    let packed: Vec<u8> = match read_bytes(blob, "atlasData") {
        Ok(packed) => packed,
        Err(error) => return Err(error),
    };
    let pixels: usize = match sizes(h.atlas_width, h.atlas_height, 8) {
        Some((pixels, _)) => pixels,
        None => return Err(malformed("multilayer mask dimensions overflow")),
    };
    let mut image: Vec<u32> = blank(pixels);
    if !decode_bc4(packed.as_slice(), h.atlas_width, h.atlas_height, &mut image) {
        return Err(MaterialError::Atlas);
    }
    let tiles: Vec<u8> = match read_bytes(blob, "tilesData") {
        Ok(tiles) => tiles,
        Err(error) => return Err(error),
    };
    if h.width.checked_mul(h.height).is_none() || h.low_width.checked_mul(h.low_height).is_none() {
        return Err(malformed("multilayer mask dimensions overflow"));
    }
    Ok(
        (
            Mask {
                atlas: list_red(&image),
                atlas_width: h.atlas_width,
                tiles: read_words(tiles.as_slice()),
                width: h.width,
                height: h.height,
                low_width: h.low_width,
                low_height: h.low_height,
                tile_size: h.tile_size,
            },
            h.layers,
        ),
    )
}

/// An image with one byte per pixel.
pub ghost struct ImageModel {
    pub pixels: Seq<u8>,
    pub width: nat,
    pub height: nat,
}

/// The image of a layer. A layer without fine tiles is shown in coarse size.
pub open spec fn layer_image(m: MaskModel, layer: nat) -> ImageModel {
    let fine = has_fine_tile(
        m.tiles,
        tiles_across(m.width, m.tile_size) * tiles_across(m.height, m.tile_size),
        layer,
    );
    if fine || m.low_width == 0 || m.low_height == 0 || m.low_width == m.width || m.width == 0
        || m.height == 0 {
        ImageModel { pixels: layer_pixels(m, layer), width: m.width, height: m.height }
    } else {
        ImageModel {
            pixels: nearest(layer_pixels(m, layer), m.width, m.height, m.low_width, m.low_height),
            width: m.low_width,
            height: m.low_height,
        }
    }
}

/// An image with one byte per pixel.
#[derive(Debug, PartialEq, Eq)]
pub struct LayerImage {
    pub pixels: Vec<u8>,
    pub width: usize,
    pub height: usize,
}

impl View for LayerImage {
    type V = ImageModel;

    open spec fn view(&self) -> ImageModel {
        ImageModel {
            pixels: self.pixels@,
            width: self.width as nat,
            height: self.height as nat,
        }
    }
}

/// Makes the image of a layer.
pub fn mask_layer(m: &Mask, layer: usize) -> (result: LayerImage)
    requires
        m.tile_size > 0,
        m.width * m.height <= usize::MAX,
        m.low_width * m.low_height <= usize::MAX,
    ensures
        result@ == layer_image(m@, layer as nat),
{
    let full: Vec<u8> = decode_mask_layer(m, layer);
    if has_high_resolution(&m.tiles, m.width, m.height, m.tile_size, layer) || m.low_width == 0
        || m.low_height == 0 || m.low_width == m.width || m.width == 0 || m.height == 0 {
        LayerImage { pixels: full, width: m.width, height: m.height }
    } else {
        LayerImage {
            pixels: downscale_nearest(&full, m.width, m.height, m.low_width, m.low_height),
            width: m.low_width,
            height: m.low_height,
        }
    }
}

/// The name of the file of a layer.
pub open spec fn layer_name(stem: Seq<char>, layer: nat) -> Seq<char> {
    stem + "_"@ + number_text::decimal(layer) + ".png"@
}

/// Names the file of a layer.
pub fn layer_file_name(stem: &str, layer: usize) -> (result: String)
    ensures
        result@ == layer_name(stem@, layer as nat),
{
    let mut name: String = String::new();
    push_text(&mut name, stem);
    push_text(&mut name, "_");
    push_text(&mut name, decimal_text(layer as u64).as_str());
    push_text(&mut name, ".png");
    assert(name@ =~= layer_name(stem@, layer as nat));
    name
}

/// The list of the files of the first `n` layers, one a line.
pub open spec fn layer_list(stem: Seq<char>, n: nat) -> Seq<char>
    decreases n,
{
    if n == 0 {
        Seq::empty()
    } else {
        layer_list(stem, (n - 1) as nat) + stem + "_layers/"@ + layer_name(stem, (n - 1) as nat)
            + "\n"@
    }
}

/// Lists the files of layers.
pub fn mask_list(stem: &str, layers: usize) -> (result: String)
    ensures
        result@ == layer_list(stem@, layers as nat),
{
    let mut list: String = String::new();
    let mut i: usize = 0;
    assert(list@ =~= Seq::empty());
    while i < layers
        invariant
            i <= layers,
            list@ == layer_list(stem@, i as nat),
        decreases layers - i,
    {
        push_text(&mut list, stem);
        push_text(&mut list, "_layers/");
        push_text(&mut list, layer_file_name(stem, i).as_str());
        push_text(&mut list, "\n");
        assert(list@ =~= layer_list(stem@, (i + 1) as nat));
        i = i + 1;
    }
    list
}

} // verus!
