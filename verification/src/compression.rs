//! Limits of the native Kraken codec.

use vstd::prelude::*;

verus! {

/// Reports payloads that the native codec cannot take or answers wrongly.
#[derive(Debug, Clone, Copy, PartialEq, Eq, Structural)]
pub enum CompressionError {
    /// The input or output is too large for the codec.
    TooLarge,
    /// The codec returned an invalid output size.
    InvalidSize { actual: i32, maximum: usize },
    /// The codec decoded to a different size.
    WrongSize { actual: i32, expected: usize },
    /// Decoding what was compressed produced different bytes.
    ValidationMismatch,
}

/// The input size with a whole block added, and once more if bit 31 is then set.
pub open spec fn biased_size(size: nat) -> nat {
    let biased = size + 0x3_ffff;
    if (biased / 0x8000_0000) % 2 == 1 {
        biased + 0x3_ffff
    } else {
        biased
    }
}

/// How many bytes the codec may write for an input of this size.
pub open spec fn buffer_capacity(size: nat) -> nat {
    (biased_size(size) / 4096) * 0x112 + size
}

/// Calculates how many bytes the codec may write for an input of this size.
pub fn compressed_buffer_capacity(input_len: usize) -> (result: Result<usize, CompressionError>)
    ensures
        if biased_size(input_len as nat) <= u64::MAX && buffer_capacity(input_len as nat)
            <= usize::MAX {
            result matches Ok(r) && r == buffer_capacity(input_len as nat)
        } else {
            result matches Err(error) && error == CompressionError::TooLarge
        },
{
    let count: u64 = input_len as u64;
    if count > 0xffff_ffff_ffff_ffff - 0x3_ffff {
        return Err(CompressionError::TooLarge);
    }
    let mut biased: u64 = count + 0x3_ffff;
    if (biased / 0x8000_0000) % 2 == 1 {
        if biased > 0xffff_ffff_ffff_ffff - 0x3_ffff {
            return Err(CompressionError::TooLarge);
        }
        biased = biased + 0x3_ffff;
    }
    let blocks: u64 = biased / 4096;
    let overhead: u64 = blocks * 0x112;
    if overhead > 0xffff_ffff_ffff_ffff - count || overhead + count > usize::MAX as u64 {
        return Err(CompressionError::TooLarge);
    }
    Ok((overhead + count) as usize)
}

/// Whether the codec's answer to a compression is a size at all.
pub open spec fn size_ok(actual: i32, capacity: nat) -> bool {
    0 < actual <= capacity
}

/// Tests the codec's answer to a compression.
pub fn checked_size(actual: i32, capacity: usize) -> (result: Result<usize, CompressionError>)
    ensures
        if size_ok(actual, capacity as nat) {
            result matches Ok(size) && size == actual
        } else {
            result matches Err(error) && error == (CompressionError::InvalidSize {
                actual,
                maximum: capacity,
            })
        },
{
    if actual <= 0 || actual as usize > capacity {
        Err(CompressionError::InvalidSize { actual, maximum: capacity })
    } else {
        Ok(actual as usize)
    }
}

} // verus!
