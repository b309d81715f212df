//! Where the pixels of a layer of a mask come from.

use crate::material_mask;
use crate::material_mask::{ImageModel, MaskModel};
use vstd::arithmetic::div_mod::{
    lemma_div_denominator, lemma_fundamental_div_mod, lemma_fundamental_div_mod_converse,
};
use vstd::arithmetic::power2::{lemma_pow2_pos, lemma_pow2_unfold, pow2};
use vstd::prelude::*;

verus! {

/// Whether a number, in binary, is the set of some layers in ascending order.
pub open spec fn holds(bits: nat, held: Seq<nat>) -> bool {
    &&& forall|i: int, j: int| 0 <= i < j < held.len() ==> #[trigger] held[i] < #[trigger] held[j]
    &&& forall|i: int| 0 <= i < held.len() ==> #[trigger] held[i] < 32
    &&& forall|layer: nat|
        layer < 32 ==> (held.contains(layer) <==> #[trigger] (bits / pow2(layer)) % 2 == 1)
}

/// Whether a tile of tiles of a size, each `scale` times as large as it is stored, covers
/// a place along one side.
pub open spec fn covers(tile: nat, scale: nat, size: nat, at: nat) -> bool {
    (tile * scale) * size <= at < ((tile + 1) * scale) * size
}

/// Whether some tiles of a size are as many as it takes to cover a length.
pub open spec fn covered_by(count: nat, length: nat, size: nat) -> bool {
    &&& length <= count * size
    &&& count > 0 ==> (count - 1) * size < length
}

/// What a declaration says of a tile: its place in the atlas, and how often the mask is
/// halved to the size in the atlas.
pub ghost struct Declared {
    pub column: nat,
    pub row: nat,
    pub column_halvings: nat,
    pub row_halvings: nat,
    pub rest: nat,
}

/// Whether a word is a declaration.
pub open spec fn declares(word: nat, d: Declared) -> bool {
    &&& d.column < 1024
    &&& d.row < 1024
    &&& d.column_halvings < 16
    &&& d.row_halvings < 16
    &&& word == d.column + 0x400 * d.row + 0x10_0000 * d.column_halvings + 0x100_0000
        * d.row_halvings + 0x1000_0000 * d.rest
}

/// Where a pixel of a tile stands along one side of the atlas, whose tiles have a border
/// of one pixel on either side.
pub open spec fn spot(at: nat, halvings: nat, place: nat, size: nat) -> nat {
    place * (size + 2) + 1 + at / pow2(halvings) % size
}

/// Where a pixel of a mask stands in the atlas.
pub open spec fn atlas_index(m: MaskModel, x: nat, y: nat, d: Declared) -> nat {
    spot(x, d.column_halvings, d.column, m.tile_size) + m.atlas_width * spot(
        y,
        d.row_halvings,
        d.row,
        m.tile_size,
    )
}

proof fn lemma_shifted(bits: nat, n: nat)
    ensures
        material_mask::shifted(bits, n) == bits / pow2(n),
    decreases n,
{
    lemma_pow2_pos(n);
    if n == 0 {
        lemma_pow2_unfold(1);
        assert(pow2(0) == 1) by {
            vstd::arithmetic::power2::lemma2_to64();
        }
    } else {
        lemma_shifted(bits, (n - 1) as nat);
        lemma_pow2_unfold(n);
        lemma_pow2_pos((n - 1) as nat);
        lemma_div_denominator(bits as int, pow2((n - 1) as nat) as int, 2);
        assert(pow2((n - 1) as nat) * 2 == pow2(n));
    }
}

/// The number of layers below a layer is the number of those before it in the list.
proof fn lemma_below(bits: nat, held: Seq<nat>, n: nat, k: nat)
    requires
        holds(bits, held),
        n <= 32,
        k <= held.len(),
        forall|j: int| 0 <= j < k ==> #[trigger] held[j] < n,
        forall|j: int| k <= j < held.len() ==> #[trigger] held[j] >= n,
    ensures
        material_mask::set_bits(bits, n) == k,
    decreases n,
{
    if n == 0 {
        if k > 0 {
            assert(held[0] < 0);
        }
    } else {
        let below = (n - 1) as nat;
        lemma_shifted(bits, below);
        if held.contains(below) {
            let j = choose|j: int| 0 <= j < held.len() && held[j] == below;
            assert(j < k);
            if j < k - 1 {
                assert(held[j] < held[k - 1]);
                assert(held[k - 1] < n);
            }
            assert(j == k - 1);
            assert forall|i: int| 0 <= i < k - 1 implies #[trigger] held[i] < below by {
                assert(held[i] < held[k - 1]);
            }
            lemma_below(bits, held, below, (k - 1) as nat);
        } else {
            assert forall|i: int| 0 <= i < k implies #[trigger] held[i] < below by {
                assert(held.contains(held[i]));
            }
            lemma_below(bits, held, below, k);
            assert((bits / pow2(below)) % 2 != 1);
        }
    }
}

proof fn lemma_held(bits: nat, held: Seq<nat>, rank: nat)
    requires
        holds(bits, held),
        rank < held.len(),
    ensures
        material_mask::has_layer(bits, held[rank as int]),
        material_mask::set_bits(bits, held[rank as int]) == rank,
{
    let layer = held[rank as int];
    assert(held.contains(layer));
    lemma_shifted(bits, layer);
    assert((bits / pow2(layer)) % 2 == 1);
    assert forall|j: int| rank <= j < held.len() implies #[trigger] held[j] >= layer by {
        if j > rank {
            assert(held[rank as int] < held[j]);
        }
    }
    lemma_below(bits, held, layer, rank);
}

proof fn lemma_not_held(bits: nat, held: Seq<nat>, layer: nat)
    requires
        holds(bits, held),
        !held.contains(layer),
    ensures
        !material_mask::has_layer(bits, layer),
{
    lemma_shifted(bits, layer);
    if layer < 32 {
        assert((bits / pow2(layer)) % 2 != 1);
    }
}

proof fn lemma_covers(tile: nat, scale: nat, size: nat, at: nat)
    requires
        covers(tile, scale, size, at),
    ensures
        scale > 0,
        size > 0,
        at / size / scale == tile,
{
    assert(size > 0 && scale > 0) by (nonlinear_arith)
        requires
            (tile * scale) * size < ((tile + 1) * scale) * size,
    ;
    let q = at / size;
    lemma_fundamental_div_mod(at as int, size as int);
    assert(tile * scale <= q < (tile + 1) * scale) by (nonlinear_arith)
        requires
            size > 0,
            (tile * scale) * size <= at < ((tile + 1) * scale) * size,
            at == size * q + at % size,
            0 <= at % size < size,
    ;
    let rest = q - tile * scale;
    assert((tile + 1) * scale == tile * scale + scale) by (nonlinear_arith);
    lemma_fundamental_div_mod_converse(q as int, scale as int, tile as int, rest as int);
}

proof fn lemma_declares(word: nat, d: Declared)
    requires
        declares(word, d),
    ensures
        word % 1024 == d.column,
        word / 1024 % 1024 == d.row,
        word / 0x10_0000 % 16 == d.column_halvings,
        word / 0x100_0000 % 16 == d.row_halvings,
{
    let h3 = d.row_halvings + 0x10 * d.rest;
    let h2 = d.column_halvings + 0x10 * h3;
    let h1 = d.row + 0x400 * h2;
    assert(word == d.column + 0x400 * h1);
    lemma_digit(word, 0x400, h1, d.column);
    lemma_digit(h1, 0x400, h2, d.row);
    lemma_digit(h2, 0x10, h3, d.column_halvings);
    lemma_digit(h3, 0x10, d.rest, d.row_halvings);
    lemma_div_denominator(word as int, 0x400, 0x400);
    lemma_div_denominator(word as int, 0x10_0000, 0x10);
}

proof fn lemma_digit(value: nat, base: nat, rest: nat, digit: nat)
    requires
        value == digit + base * rest,
        digit < base,
    ensures
        value / base == rest,
        value % base == digit,
{
    assert(base * rest == rest * base) by (nonlinear_arith);
    lemma_fundamental_div_mod_converse(value as int, base as int, rest as int, digit as int);
}

/// A layer that a tile holds is declared behind the tile's start, by as many words as
/// there are layers below it in the tile. Its pixel is that of the atlas at the place
/// that the declaration gives.
pub proof fn law_held_layer(
    m: MaskModel,
    x: nat,
    y: nat,
    offset: nat,
    scale: nat,
    across: nat,
    column: nat,
    row: nat,
    held: Seq<nat>,
    rank: nat,
    d: Declared,
)
    requires
        covers(column, scale, m.tile_size, x),
        covers(row, scale, m.tile_size, y),
        rank < held.len(),
        ({
            let tile = offset + across * row + column;
            &&& 2 * tile + 1 < m.tiles.len()
            &&& holds(m.tiles[(2 * tile + 1) as int] as nat, held)
            &&& m.tiles[(2 * tile) as int] + rank < m.tiles.len()
            &&& declares(m.tiles[m.tiles[(2 * tile) as int] + rank] as nat, d)
        }),
    ensures
        material_mask::tile_pixel(m, x, y, held[rank as int], offset, scale, across) == (
        if atlas_index(m, x, y, d) < m.atlas.len() {
            Some(m.atlas[atlas_index(m, x, y, d) as int])
        } else {
            None
        }),
{
    lemma_covers(column, scale, m.tile_size, x);
    lemma_covers(row, scale, m.tile_size, y);
    let tile = offset + across * row + column;
    let bits = m.tiles[(2 * tile + 1) as int] as nat;
    lemma_held(bits, held, rank);
    lemma_declares(m.tiles[m.tiles[(2 * tile) as int] + rank] as nat, d);
    lemma_shifted(x, d.column_halvings);
    lemma_shifted(y, d.row_halvings);
    let high = spot(y, d.row_halvings, d.row, m.tile_size);
    assert(high * m.atlas_width == m.atlas_width * high) by (nonlinear_arith);
}

/// A layer that a tile does not hold has no pixel there.
pub proof fn law_other_layer(
    m: MaskModel,
    x: nat,
    y: nat,
    layer: nat,
    offset: nat,
    scale: nat,
    across: nat,
    column: nat,
    row: nat,
    held: Seq<nat>,
)
    requires
        covers(column, scale, m.tile_size, x),
        covers(row, scale, m.tile_size, y),
        !held.contains(layer),
        ({
            let tile = offset + across * row + column;
            2 * tile + 1 < m.tiles.len() ==> holds(m.tiles[(2 * tile + 1) as int] as nat, held)
        }),
    ensures
        material_mask::tile_pixel(m, x, y, layer, offset, scale, across) is None,
{
    lemma_covers(column, scale, m.tile_size, x);
    lemma_covers(row, scale, m.tile_size, y);
    let tile = offset + across * row + column;
    if 2 * tile + 1 < m.tiles.len() {
        lemma_not_held(m.tiles[(2 * tile + 1) as int] as nat, held, layer);
    }
}

/// Two layers of one tile have declarations of their own: another declaration of the one
/// leaves the pixels of the other.
pub proof fn law_layers_apart(
    m: MaskModel,
    x: nat,
    y: nat,
    offset: nat,
    scale: nat,
    across: nat,
    column: nat,
    row: nat,
    held: Seq<nat>,
    rank: nat,
    other: nat,
    word: u32,
)
    requires
        covers(column, scale, m.tile_size, x),
        covers(row, scale, m.tile_size, y),
        rank < held.len(),
        other < held.len(),
        rank != other,
        ({
            let tile = offset + across * row + column;
            let start = m.tiles[(2 * tile) as int] as nat;
            &&& 2 * tile + 1 < m.tiles.len()
            &&& holds(m.tiles[(2 * tile + 1) as int] as nat, held)
            &&& start + other < m.tiles.len()
            &&& start > 2 * tile + 1
        }),
    ensures
        ({
            let tile = offset + across * row + column;
            let at = m.tiles[(2 * tile) as int] + other;
            let changed = MaskModel { tiles: m.tiles.update(at, word), ..m };
            material_mask::tile_pixel(m, x, y, held[rank as int], offset, scale, across)
                == material_mask::tile_pixel(
                changed,
                x,
                y,
                held[rank as int],
                offset,
                scale,
                across,
            )
        }),
{
    lemma_covers(column, scale, m.tile_size, x);
    lemma_covers(row, scale, m.tile_size, y);
    let tile = offset + across * row + column;
    lemma_held(m.tiles[(2 * tile + 1) as int] as nat, held, rank);
}

proof fn lemma_across(count: nat, length: nat, size: nat)
    requires
        size > 0,
        covered_by(count, length, size),
    ensures
        material_mask::tiles_across(length, size) == count,
{
    if count == 0 {
        assert(length == 0) by (nonlinear_arith)
            requires
                length <= count * size,
                count == 0,
        ;
        assert(0nat / size == 0 && 0nat % size == 0) by (nonlinear_arith)
            requires
                size > 0,
        ;
    } else {
        let less = (count - 1) as nat;
        assert(count * size == less * size + size) by (nonlinear_arith)
            requires
                count == less + 1,
        ;
        if length == count * size {
            lemma_fundamental_div_mod_converse(length as int, size as int, count as int, 0);
        } else {
            lemma_fundamental_div_mod_converse(
                length as int,
                size as int,
                less as int,
                length - less * size,
            );
        }
    }
}

proof fn lemma_pixel(m: MaskModel, x: nat, y: nat, layer: nat)
    requires
        x < m.width,
        y < m.height,
    ensures
        x + y * m.width < material_mask::layer_pixels(m, layer).len(),
        material_mask::layer_pixels(m, layer)[(x + y * m.width) as int]
            == material_mask::layer_pixel(m, x, y, layer),
{
    let w = m.width;
    let h = m.height;
    assert(x + y * w < w * h) by (nonlinear_arith)
        requires
            x < w,
            y < h,
    ;
    lemma_fundamental_div_mod_converse((x + y * w) as int, w as int, y as int, x as int);
}

/// A pixel of a layer is that of the fine tile that covers it, where that tile has one.
pub proof fn law_fine_pixel(
    m: MaskModel,
    x: nat,
    y: nat,
    across: nat,
    column: nat,
    row: nat,
    held: Seq<nat>,
    rank: nat,
    d: Declared,
)
    requires
        x < m.width,
        y < m.height,
        covered_by(across, m.width, m.tile_size),
        covers(column, 1, m.tile_size, x),
        covers(row, 1, m.tile_size, y),
        rank < held.len(),
        ({
            let tile = across * row + column;
            &&& 2 * tile + 1 < m.tiles.len()
            &&& holds(m.tiles[(2 * tile + 1) as int] as nat, held)
            &&& m.tiles[(2 * tile) as int] + rank < m.tiles.len()
            &&& declares(m.tiles[m.tiles[(2 * tile) as int] + rank] as nat, d)
        }),
        atlas_index(m, x, y, d) < m.atlas.len(),
    ensures
        material_mask::layer_pixels(m, held[rank as int]).len() == m.width * m.height,
        x + y * m.width < m.width * m.height,
        material_mask::layer_pixels(m, held[rank as int])[(x + y * m.width) as int]
            == m.atlas[atlas_index(m, x, y, d) as int],
{
    lemma_covers(column, 1, m.tile_size, x);
    lemma_across(across, m.width, m.tile_size);
    law_held_layer(m, x, y, 0, 1, across, column, row, held, rank, d);
    lemma_pixel(m, x, y, held[rank as int]);
}

/// A pixel of a layer that no fine tile holds there is that of the coarse tile that
/// covers it. The coarse tiles stand behind the fine ones, and each is as much larger as
/// the mask is wider than its coarse form.
pub proof fn law_coarse_pixel(
    m: MaskModel,
    x: nat,
    y: nat,
    across: nat,
    down: nat,
    fine_column: nat,
    fine_row: nat,
    fine_held: Seq<nat>,
    scale: nat,
    coarse_across: nat,
    column: nat,
    row: nat,
    held: Seq<nat>,
    rank: nat,
    d: Declared,
)
    requires
        x < m.width,
        y < m.height,
        covered_by(across, m.width, m.tile_size),
        covered_by(down, m.height, m.tile_size),
        covers(fine_column, 1, m.tile_size, x),
        covers(fine_row, 1, m.tile_size, y),
        rank < held.len(),
        !fine_held.contains(held[rank as int]),
        ({
            let tile = across * fine_row + fine_column;
            2 * tile + 1 < m.tiles.len() ==> holds(
                m.tiles[(2 * tile + 1) as int] as nat,
                fine_held,
            )
        }),
        0 < m.low_width <= m.width,
        scale * m.low_width <= m.width < (scale + 1) * m.low_width,
        covered_by(coarse_across, m.width / scale, m.tile_size),
        covers(column, scale, m.tile_size, x),
        covers(row, scale, m.tile_size, y),
        ({
            let tile = across * down + coarse_across * row + column;
            &&& 2 * tile + 1 < m.tiles.len()
            &&& holds(m.tiles[(2 * tile + 1) as int] as nat, held)
            &&& m.tiles[(2 * tile) as int] + rank < m.tiles.len()
            &&& declares(m.tiles[m.tiles[(2 * tile) as int] + rank] as nat, d)
        }),
        atlas_index(m, x, y, d) < m.atlas.len(),
    ensures
        x + y * m.width < material_mask::layer_pixels(m, held[rank as int]).len(),
        material_mask::layer_pixels(m, held[rank as int])[(x + y * m.width) as int]
            == m.atlas[atlas_index(m, x, y, d) as int],
{
    let layer = held[rank as int];
    lemma_covers(fine_column, 1, m.tile_size, x);
    lemma_across(across, m.width, m.tile_size);
    lemma_across(down, m.height, m.tile_size);
    law_other_layer(m, x, y, layer, 0, 1, across, fine_column, fine_row, fine_held);
    let low = m.low_width;
    assert((scale + 1) * low == scale * low + low) by (nonlinear_arith);
    lemma_fundamental_div_mod_converse(
        m.width as int,
        low as int,
        scale as int,
        m.width - scale * low,
    );
    lemma_across(coarse_across, m.width / scale, m.tile_size);
    law_held_layer(
        m,
        x,
        y,
        across * down,
        scale,
        coarse_across,
        column,
        row,
        held,
        rank,
        d,
    );
    lemma_pixel(m, x, y, layer);
}

/// An image of another size has at each place the pixel that stands there in the first.
pub proof fn law_resized(
    source: Seq<u8>,
    source_width: nat,
    source_height: nat,
    width: nat,
    height: nat,
    x: nat,
    y: nat,
    from_x: nat,
    from_y: nat,
)
    requires
        x < width,
        y < height,
        from_x * width <= x * source_width < (from_x + 1) * width,
        from_y * height <= y * source_height < (from_y + 1) * height,
    ensures
        x + y * width < material_mask::nearest(
            source,
            source_width,
            source_height,
            width,
            height,
        ).len(),
        material_mask::nearest(source, source_width, source_height, width, height)[(x + y
            * width) as int] == source[(from_x + from_y * source_width) as int],
{
    assert(x + y * width < width * height) by (nonlinear_arith)
        requires
            x < width,
            y < height,
    ;
    lemma_fundamental_div_mod_converse((x + y * width) as int, width as int, y as int, x as int);
    assert((from_x + 1) * width == from_x * width + width) by (nonlinear_arith);
    assert((from_y + 1) * height == from_y * height + height) by (nonlinear_arith);
    lemma_fundamental_div_mod_converse(
        (x * source_width) as int,
        width as int,
        from_x as int,
        x * source_width - from_x * width,
    );
    lemma_fundamental_div_mod_converse(
        (y * source_height) as int,
        height as int,
        from_y as int,
        y * source_height - from_y * height,
    );
}

/// A pixel in grey has its value as each of its colours, and is opaque.
pub proof fn law_grey(pixels: Seq<u8>, i: nat)
    requires
        i < pixels.len(),
    ensures
        material_mask::grey(pixels).len() == 4 * pixels.len(),
        material_mask::grey(pixels)[4 * i as int] == pixels[i as int],
        material_mask::grey(pixels)[4 * i as int + 1] == pixels[i as int],
        material_mask::grey(pixels)[4 * i as int + 2] == pixels[i as int],
        material_mask::grey(pixels)[4 * i as int + 3] == 255,
{
}

/// The image of a layer that a fine tile holds has the size of the mask, and so has that
/// of any layer of a mask without another coarse form. That of another layer has the
/// coarse size, and each of its pixels stands at the same place in the mask.
pub proof fn law_layer_size(
    m: MaskModel,
    layer: nat,
    across: nat,
    down: nat,
    tiles: Seq<Seq<nat>>,
)
    requires
        m.tile_size > 0,
        m.width > 0,
        m.height > 0,
        covered_by(across, m.width, m.tile_size),
        covered_by(down, m.height, m.tile_size),
        tiles.len() == across * down,
        2 * tiles.len() <= m.tiles.len(),
        forall|i: int|
            0 <= i < tiles.len() ==> holds(m.tiles[2 * i + 1] as nat, #[trigger] tiles[i]),
    ensures
        ({
            let image = material_mask::layer_image(m, layer);
            let full = material_mask::layer_pixels(m, layer);
            &&& (exists|i: int| 0 <= i < tiles.len() && (#[trigger] tiles[i]).contains(layer))
                ==> image == (ImageModel { pixels: full, width: m.width, height: m.height })
            &&& m.low_width == 0 || m.low_height == 0 || m.low_width == m.width ==> image == (
            ImageModel { pixels: full, width: m.width, height: m.height })
            &&& m.low_width > 0 && m.low_height > 0 && m.low_width != m.width && (forall|i: int|
                0 <= i < tiles.len() ==> !(#[trigger] tiles[i]).contains(layer)) ==> image.width
                == m.low_width && image.height == m.low_height && forall|
                x: nat,
                y: nat,
                from_x: nat,
                from_y: nat,
            |
                x < m.low_width && y < m.low_height && #[trigger] (from_x * m.low_width) <= x
                    * m.width < (from_x + 1) * m.low_width && #[trigger] (from_y * m.low_height)
                    <= y * m.height < (from_y + 1) * m.low_height ==> image.pixels[(#[trigger] (x
                    + y * m.low_width)) as int] == full[(from_x + from_y * m.width) as int]
        }),
{
    lemma_across(across, m.width, m.tile_size);
    lemma_across(down, m.height, m.tile_size);
    let count = across * down;
    if exists|i: int| 0 <= i < tiles.len() && (#[trigger] tiles[i]).contains(layer) {
        let i = choose|i: int| 0 <= i < tiles.len() && (#[trigger] tiles[i]).contains(layer);
        let rank = choose|k: int| 0 <= k < tiles[i].len() && tiles[i][k] == layer;
        lemma_held(m.tiles[2 * i + 1] as nat, tiles[i], rank as nat);
        assert(material_mask::is_fine_tile(m.tiles, i, layer));
        assert(material_mask::has_fine_tile(m.tiles, count, layer));
    } else {
        assert forall|i: int| 0 <= i < count implies !#[trigger] material_mask::is_fine_tile(
            m.tiles,
            i,
            layer,
        ) by {
            lemma_not_held(m.tiles[2 * i + 1] as nat, tiles[i], layer);
        }
        assert(!material_mask::has_fine_tile(m.tiles, count, layer));
        let full = material_mask::layer_pixels(m, layer);
        assert forall|x: nat, y: nat, from_x: nat, from_y: nat|
            m.low_width > 0 && m.low_height > 0 && m.low_width != m.width && x < m.low_width && y
                < m.low_height && #[trigger] (from_x * m.low_width) <= x * m.width < (from_x + 1)
                * m.low_width && #[trigger] (from_y * m.low_height) <= y * m.height < (from_y + 1)
                * m.low_height implies material_mask::layer_image(m, layer).pixels[(#[trigger] (x
            + y * m.low_width)) as int] == full[(from_x + from_y * m.width) as int] by {
            law_resized(
                full,
                m.width,
                m.height,
                m.low_width,
                m.low_height,
                x,
                y,
                from_x,
                from_y,
            );
        }
    }
}

} // verus!
