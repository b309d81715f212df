//! Block-compressed textures, decoded by `texture2ddecoder`.

use vstd::prelude::*;

verus! {

/// How many bytes an image takes whose blocks of four by four pixels take
/// `size` bytes each.
pub open spec fn block_bytes(width: nat, height: nat, size: nat) -> nat {
    ((width + 3) / 4) * ((height + 3) / 4) * size
}

/// The pixels that `texture2ddecoder::decode_bc1` makes of blocks.
pub uninterp spec fn bc1_pixels(data: Seq<u8>, width: nat, height: nat) -> Seq<u32>;

/// The pixels that `texture2ddecoder::decode_bc3` makes of blocks, on a machine
/// with words of so many bits.
pub uninterp spec fn bc3_pixels(data: Seq<u8>, width: nat, height: nat, word: nat) -> Seq<u32>;

/// The pixels that `texture2ddecoder::decode_bc4` makes of blocks, on a machine
/// with words of so many bits.
pub uninterp spec fn bc4_pixels(data: Seq<u8>, width: nat, height: nat, word: nat) -> Seq<u32>;

/// The pixels that `texture2ddecoder::decode_bc5` makes of blocks, on a machine
/// with words of so many bits.
pub uninterp spec fn bc5_pixels(data: Seq<u8>, width: nat, height: nat, word: nat) -> Seq<u32>;

/// The pixels that `texture2ddecoder::decode_bc7` makes of blocks.
pub uninterp spec fn bc7_pixels(data: Seq<u8>, width: nat, height: nat) -> Seq<u32>;

/// The pixels that `texture2ddecoder::decode_bc6_signed` makes of blocks.
pub uninterp spec fn bc6_signed_pixels(data: Seq<u8>, width: nat, height: nat) -> Seq<u32>;

/// The pixels that `texture2ddecoder::decode_bc6_unsigned` makes of blocks.
pub uninterp spec fn bc6_unsigned_pixels(data: Seq<u8>, width: nat, height: nat) -> Seq<u32>;

/// Whether none of the first blocks of half floats is of the mode whose endpoints
/// take all bits of a number: the decoder shifts by that many bits.
pub open spec fn narrow_modes(data: Seq<u8>, blocks: nat) -> bool {
    forall|k: int| 0 <= k < blocks ==> #[trigger] data[16 * k] % 32 != 15
}

/// How many blocks of four by four pixels an image has.
pub open spec fn block_count(width: nat, height: nat) -> nat {
    ((width + 3) / 4) * ((height + 3) / 4)
}

/// Calls `texture2ddecoder::decode_bc6_signed`. It fails exactly where there are
/// too few bytes, and else sets every pixel; which, depends on the arguments alone
/// and is named [`bc6_signed_pixels`]. Blocks of the widest mode are left out: on
/// them it may overflow.
#[verifier::external_body]
pub(crate) fn decode_bc6_signed(data: &[u8], width: usize, height: usize, image: &mut Vec<u32>) -> (result:
    bool)
    requires
        block_bytes(width as nat, height as nat, 16) <= usize::MAX,
        old(image)@.len() == width * height,
        data@.len() >= block_bytes(width as nat, height as nat, 16) ==> narrow_modes(
            data@,
            block_count(width as nat, height as nat),
        ),
    ensures
        result == (data@.len() >= block_bytes(width as nat, height as nat, 16)),
        result ==> final(image)@ == bc6_signed_pixels(data@, width as nat, height as nat),
        final(image)@.len() == old(image)@.len(),
{
    texture2ddecoder::decode_bc6_signed(data, width, height, image).is_ok()
}

/// Calls `texture2ddecoder::decode_bc6_unsigned`. It fails exactly where there are
/// too few bytes, and else sets every pixel; which, depends on the arguments alone
/// and is named [`bc6_unsigned_pixels`]. Blocks of the widest mode are left out: on
/// them it may overflow.
#[verifier::external_body]
pub(crate) fn decode_bc6_unsigned(data: &[u8], width: usize, height: usize, image: &mut Vec<u32>) -> (result:
    bool)
    requires
        block_bytes(width as nat, height as nat, 16) <= usize::MAX,
        old(image)@.len() == width * height,
        data@.len() >= block_bytes(width as nat, height as nat, 16) ==> narrow_modes(
            data@,
            block_count(width as nat, height as nat),
        ),
    ensures
        result == (data@.len() >= block_bytes(width as nat, height as nat, 16)),
        result ==> final(image)@ == bc6_unsigned_pixels(data@, width as nat, height as nat),
        final(image)@.len() == old(image)@.len(),
{
    texture2ddecoder::decode_bc6_unsigned(data, width, height, image).is_ok()
}

/// Tells whether none of the first blocks is of the widest mode.
pub fn has_narrow_modes(data: &[u8], blocks: usize) -> (result: bool)
    requires
        16 * blocks <= data@.len(),
    ensures
        result == narrow_modes(data@, blocks as nat),
{
    let size: usize = data.len();
    let mut k: usize = 0;
    while k < blocks
        invariant
            k <= blocks,
            16 * blocks <= data@.len() == size,
            forall|i: int| 0 <= i < k ==> #[trigger] data@[16 * i] % 32 != 15,
        decreases blocks - k,
    {
        if data[16 * k] % 32 == 15 {
            assert(data@[16 * (k as int)] % 32 == 15);
            return false;
        }
        k = k + 1;
    }
    true
}

/// Calls `texture2ddecoder::decode_bc1`. It fails exactly where there are too
/// few bytes, and else sets every pixel; which, depends on the arguments alone
/// and is named [`bc1_pixels`].
#[verifier::external_body]
pub(crate) fn decode_bc1(data: &[u8], width: usize, height: usize, image: &mut Vec<u32>) -> (result:
    bool)
    requires
        block_bytes(width as nat, height as nat, 8) <= usize::MAX,
        old(image)@.len() == width * height,
    ensures
        result == (data@.len() >= block_bytes(width as nat, height as nat, 8)),
        result ==> final(image)@ == bc1_pixels(data@, width as nat, height as nat),
        final(image)@.len() == old(image)@.len(),
{
    texture2ddecoder::decode_bc1(data, width, height, image).is_ok()
}

/// Calls `texture2ddecoder::decode_bc3`. It fails exactly where there are too
/// few bytes, and else sets every pixel; which, is named [`bc3_pixels`]. The
/// codes of alpha are cut to a machine word, so the name holds its size.
#[verifier::external_body]
pub(crate) fn decode_bc3(data: &[u8], width: usize, height: usize, image: &mut Vec<u32>) -> (result:
    bool)
    requires
        block_bytes(width as nat, height as nat, 16) <= usize::MAX,
        old(image)@.len() == width * height,
    ensures
        result == (data@.len() >= block_bytes(width as nat, height as nat, 16)),
        result ==> final(image)@ == bc3_pixels(
            data@,
            width as nat,
            height as nat,
            usize::BITS as nat,
        ),
        final(image)@.len() == old(image)@.len(),
{
    texture2ddecoder::decode_bc3(data, width, height, image).is_ok()
}

/// Calls `texture2ddecoder::decode_bc4`. It fails exactly where there are too
/// few bytes, and else sets every pixel; which, is named [`bc4_pixels`]. The
/// codes of the channel are cut to a machine word, so the name holds its size.
#[verifier::external_body]
pub(crate) fn decode_bc4(data: &[u8], width: usize, height: usize, image: &mut Vec<u32>) -> (result:
    bool)
    requires
        block_bytes(width as nat, height as nat, 8) <= usize::MAX,
        old(image)@.len() == width * height,
    ensures
        result == (data@.len() >= block_bytes(width as nat, height as nat, 8)),
        result ==> final(image)@ == bc4_pixels(
            data@,
            width as nat,
            height as nat,
            usize::BITS as nat,
        ),
        final(image)@.len() == old(image)@.len(),
{
    texture2ddecoder::decode_bc4(data, width, height, image).is_ok()
}

/// Calls `texture2ddecoder::decode_bc5`. It fails exactly where there are too
/// few bytes, and else sets every pixel; which, is named [`bc5_pixels`]. The
/// codes of both channels are cut to a machine word, so the name holds its size.
#[verifier::external_body]
pub(crate) fn decode_bc5(data: &[u8], width: usize, height: usize, image: &mut Vec<u32>) -> (result:
    bool)
    requires
        block_bytes(width as nat, height as nat, 16) <= usize::MAX,
        old(image)@.len() == width * height,
    ensures
        result == (data@.len() >= block_bytes(width as nat, height as nat, 16)),
        result ==> final(image)@ == bc5_pixels(
            data@,
            width as nat,
            height as nat,
            usize::BITS as nat,
        ),
        final(image)@.len() == old(image)@.len(),
{
    texture2ddecoder::decode_bc5(data, width, height, image).is_ok()
}

/// Calls `texture2ddecoder::decode_bc7`. It fails exactly where there are too
/// few bytes, and else sets every pixel; which, depends on the arguments alone
/// and is named [`bc7_pixels`].
#[verifier::external_body]
pub(crate) fn decode_bc7(data: &[u8], width: usize, height: usize, image: &mut Vec<u32>) -> (result:
    bool)
    requires
        block_bytes(width as nat, height as nat, 16) <= usize::MAX,
        old(image)@.len() == width * height,
    ensures
        result == (data@.len() >= block_bytes(width as nat, height as nat, 16)),
        result ==> final(image)@ == bc7_pixels(data@, width as nat, height as nat),
        final(image)@.len() == old(image)@.len(),
{
    texture2ddecoder::decode_bc7(data, width, height, image).is_ok()
}

/// Makes an image of zeros.
pub fn blank(pixels: usize) -> (result: Vec<u32>)
    ensures
        result@ == Seq::new(pixels as nat, |i: int| 0u32),
{
    let mut image: Vec<u32> = Vec::new();
    let mut i: usize = 0;
    while i < pixels
        invariant
            i <= pixels,
            image@ =~= Seq::new(i as nat, |i: int| 0u32),
        decreases pixels - i,
    {
        image.push(0);
        i = i + 1;
    }
    image
}

/// The size of an image, and of its blocks, if the machine can hold both.
pub open spec fn image_sizes(width: nat, height: nat, size: nat) -> Option<(nat, nat)> {
    if width * height <= usize::MAX && block_bytes(width, height, size) <= usize::MAX {
        Some((width * height, block_bytes(width, height, size)))
    } else {
        None
    }
}

/// Computes the size of an image, and of its blocks.
pub fn sizes(width: usize, height: usize, size: usize) -> (result: Option<(usize, usize)>)
    ensures
        match image_sizes(width as nat, height as nat, size as nat) {
            Some((pixels, bytes)) => result matches Some(r) && r.0 == pixels && r.1 == bytes,
            None => result is None,
        },
{
    let across: usize = width / 4 + (if width % 4 > 0 {
        1
    } else {
        0
    });
    let down: usize = height / 4 + (if height % 4 > 0 {
        1
    } else {
        0
    });
    assert(across == (width + 3) / 4);
    assert(down == (height + 3) / 4);
    let pixels: usize = match width.checked_mul(height) {
        Some(pixels) => pixels,
        None => return None,
    };
    let blocks: usize = match across.checked_mul(down) {
        Some(blocks) => blocks,
        None => {
            if size == 0 {
                assert(block_bytes(width as nat, height as nat, 0) == 0) by (nonlinear_arith);
                return Some((pixels, 0));
            }
            assert(block_bytes(width as nat, height as nat, size as nat) >= across * down)
                by (nonlinear_arith)
                requires
                    size >= 1,
                    across == (width + 3) / 4,
                    down == (height + 3) / 4,
                    block_bytes(width as nat, height as nat, size as nat) == ((width + 3) / 4) * ((
                    height + 3) / 4) * size,
            ;
            return None;
        },
    };
    match blocks.checked_mul(size) {
        Some(bytes) => Some((pixels, bytes)),
        None => None,
    }
}

} // verus!
