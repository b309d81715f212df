//! A position in a byte string that knows its place in the stream.

use super::KrakenError;
use crate::sequence::part;
use vstd::prelude::*;

verus! {

/// A 16-bit number, high byte first.
pub open spec fn be16(bytes: Seq<u8>, at: int) -> nat {
    (256 * bytes[at] + bytes[at + 1]) as nat
}

/// A 16-bit number, low byte first.
pub open spec fn le16(bytes: Seq<u8>, at: int) -> nat {
    (bytes[at] + 256 * bytes[at + 1]) as nat
}

/// A 24-bit number, high byte first.
pub open spec fn be24(bytes: Seq<u8>, at: int) -> nat {
    (0x10000 * bytes[at] + 256 * bytes[at + 1] + bytes[at + 2]) as nat
}

/// A 32-bit number, high byte first.
pub open spec fn be32(bytes: Seq<u8>, at: int) -> nat {
    (0x100_0000 * bytes[at] + 0x10000 * bytes[at + 1] + 256 * bytes[at + 2] + bytes[at + 3]) as nat
}

/// A position in a byte string that stands at `stream_offset` of the stream.
pub struct Cursor<'a> {
    bytes: &'a [u8],
    position: usize,
    stream_offset: usize,
}

impl<'a> Cursor<'a> {
    pub closed spec fn bytes(&self) -> Seq<u8> {
        self.bytes@
    }

    /// The next byte.
    pub closed spec fn at(&self) -> nat {
        self.position as nat
    }

    /// The place of the first byte in the stream.
    pub closed spec fn base(&self) -> nat {
        self.stream_offset as nat
    }

    pub closed spec fn wf(&self) -> bool {
        &&& self.position <= self.bytes@.len()
        &&& self.stream_offset + self.bytes@.len() <= usize::MAX
    }

    /// The same bytes at the same place of the stream.
    pub open spec fn same_source(&self, other: &Self) -> bool {
        self.bytes() == other.bytes() && self.base() == other.base()
    }

    /// The error of a read past the end.
    pub open spec fn truncated(&self) -> KrakenError {
        KrakenError::Truncated { offset: (self.base() + self.at()) as usize }
    }

    /// Reading stays within the input.
    pub proof fn lemma_bound(&self)
        requires
            self.wf(),
        ensures
            self.at() <= self.bytes().len(),
            self.base() + self.bytes().len() <= usize::MAX,
    {
    }

    pub fn new(bytes: &'a [u8], stream_offset: usize) -> (result: Self)
        requires
            stream_offset + bytes@.len() <= usize::MAX,
        ensures
            result.wf(),
            result.bytes() == bytes@,
            result.at() == 0,
            result.base() == stream_offset,
    {
        Cursor { bytes, position: 0, stream_offset }
    }

    /// The place of the next byte in the stream.
    pub fn absolute_offset(&self) -> (result: usize)
        requires
            self.wf(),
        ensures
            result == self.base() + self.at(),
    {
        self.stream_offset + self.position
    }

    pub fn is_empty(&self) -> (result: bool)
        requires
            self.wf(),
        ensures
            result == (self.at() == self.bytes().len()),
    {
        self.position == self.bytes.len()
    }

    /// Counts the bytes from here on.
    pub fn left(&self) -> (result: usize)
        requires
            self.wf(),
        ensures
            result == self.bytes().len() - self.at(),
    {
        self.bytes.len() - self.position
    }

    pub fn peek_byte(&self) -> (result: Result<u8, KrakenError>)
        requires
            self.wf(),
        ensures
            result == if self.at() < self.bytes().len() {
                Ok::<u8, KrakenError>(self.bytes()[self.at() as int])
            } else {
                Err::<u8, KrakenError>(self.truncated())
            },
    {
        if self.position < self.bytes.len() {
            Ok(self.bytes[self.position])
        } else {
            Err(KrakenError::Truncated { offset: self.absolute_offset() })
        }
    }

    pub fn read_byte(&mut self) -> (result: Result<u8, KrakenError>)
        requires
            old(self).wf(),
        ensures
            final(self).wf(),
            final(self).same_source(old(self)),
            if old(self).at() < old(self).bytes().len() {
                &&& result == Ok::<u8, KrakenError>(old(self).bytes()[old(self).at() as int])
                &&& final(self).at() == old(self).at() + 1
            } else {
                result == Err::<u8, KrakenError>(old(self).truncated())
            },
    {
        let value: u8 = self.peek_byte()?;
        self.position = self.position + 1;
        Ok(value)
    }

    pub fn peek_be24(&self) -> (result: Result<u32, KrakenError>)
        requires
            self.wf(),
        ensures
            result == if self.at() + 3 <= self.bytes().len() {
                Ok::<u32, KrakenError>(be24(self.bytes(), self.at() as int) as u32)
            } else {
                Err::<u32, KrakenError>(self.truncated())
            },
    {
        if self.bytes.len() - self.position < 3 {
            return Err(KrakenError::Truncated { offset: self.absolute_offset() });
        }
        let high: u32 = self.bytes[self.position] as u32;
        let middle: u32 = self.bytes[self.position + 1] as u32;
        let low: u32 = self.bytes[self.position + 2] as u32;
        Ok(high * 0x10000 + middle * 256 + low)
    }

    pub fn read_be16(&mut self) -> (result: Result<u16, KrakenError>)
        requires
            old(self).wf(),
        ensures
            final(self).wf(),
            final(self).same_source(old(self)),
            if old(self).at() + 2 <= old(self).bytes().len() {
                &&& result == Ok::<u16, KrakenError>(
                    be16(old(self).bytes(), old(self).at() as int) as u16,
                )
                &&& final(self).at() == old(self).at() + 2
            } else {
                result == Err::<u16, KrakenError>(old(self).truncated())
            },
    {
        let bytes: &[u8] = self.take(2)?;
        Ok(bytes[0] as u16 * 256 + bytes[1] as u16)
    }

    pub fn read_le16(&mut self) -> (result: Result<u16, KrakenError>)
        requires
            old(self).wf(),
        ensures
            final(self).wf(),
            final(self).same_source(old(self)),
            if old(self).at() + 2 <= old(self).bytes().len() {
                &&& result == Ok::<u16, KrakenError>(
                    le16(old(self).bytes(), old(self).at() as int) as u16,
                )
                &&& final(self).at() == old(self).at() + 2
            } else {
                result == Err::<u16, KrakenError>(old(self).truncated())
            },
    {
        let bytes: &[u8] = self.take(2)?;
        Ok(bytes[0] as u16 + bytes[1] as u16 * 256)
    }

    pub fn read_be24(&mut self) -> (result: Result<u32, KrakenError>)
        requires
            old(self).wf(),
        ensures
            final(self).wf(),
            final(self).same_source(old(self)),
            if old(self).at() + 3 <= old(self).bytes().len() {
                &&& result == Ok::<u32, KrakenError>(
                    be24(old(self).bytes(), old(self).at() as int) as u32,
                )
                &&& final(self).at() == old(self).at() + 3
            } else {
                result == Err::<u32, KrakenError>(old(self).truncated())
            },
    {
        let value: u32 = self.peek_be24()?;
        self.position = self.position + 3;
        Ok(value)
    }

    pub fn read_be32(&mut self) -> (result: Result<u32, KrakenError>)
        requires
            old(self).wf(),
        ensures
            final(self).wf(),
            final(self).same_source(old(self)),
            if old(self).at() + 4 <= old(self).bytes().len() {
                &&& result == Ok::<u32, KrakenError>(
                    be32(old(self).bytes(), old(self).at() as int) as u32,
                )
                &&& final(self).at() == old(self).at() + 4
            } else {
                result == Err::<u32, KrakenError>(old(self).truncated())
            },
    {
        let bytes: &[u8] = self.take(4)?;
        Ok(
            bytes[0] as u32 * 0x100_0000 + bytes[1] as u32 * 0x10000 + bytes[2] as u32 * 256
                + bytes[3] as u32,
        )
    }

    /// Skips `count` bytes.
    pub fn advance(&mut self, count: usize) -> (result: Result<(), KrakenError>)
        requires
            old(self).wf(),
        ensures
            final(self).wf(),
            final(self).same_source(old(self)),
            if old(self).at() + count <= old(self).bytes().len() {
                &&& result == Ok::<(), KrakenError>(())
                &&& final(self).at() == old(self).at() + count
            } else {
                &&& result == Err::<(), KrakenError>(old(self).truncated())
                &&& final(self).at() == old(self).at()
            },
    {
        match self.take(count) {
            Ok(_) => Ok(()),
            Err(error) => Err(error),
        }
    }

    /// Takes the next `count` bytes.
    pub fn take(&mut self, count: usize) -> (result: Result<&'a [u8], KrakenError>)
        requires
            old(self).wf(),
        ensures
            final(self).wf(),
            final(self).same_source(old(self)),
            if old(self).at() + count <= old(self).bytes().len() {
                &&& result is Ok
                &&& result->Ok_0@ == old(self).bytes().subrange(
                    old(self).at() as int,
                    (old(self).at() + count) as int,
                )
                &&& final(self).at() == old(self).at() + count
            } else {
                &&& result == Err::<&'a [u8], KrakenError>(old(self).truncated())
                &&& final(self).at() == old(self).at()
            },
    {
        if self.bytes.len() - self.position < count {
            return Err(KrakenError::Truncated { offset: self.absolute_offset() });
        }
        let start: usize = self.position;
        self.position = start + count;
        Ok(part(self.bytes, start, start + count))
    }

    /// The bytes from here on.
    pub fn remaining(&self) -> (result: &'a [u8])
        requires
            self.wf(),
        ensures
            result@ == self.bytes().subrange(self.at() as int, self.bytes().len() as int),
    {
        part(self.bytes, self.position, self.bytes.len())
    }
}

} // verus!
