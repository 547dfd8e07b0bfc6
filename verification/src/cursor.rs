//! A read position over a byte buffer, with the reads the container formats are made of.

use vstd::prelude::*;
use vstd::utf8::*;
use crate::bytes::{le16, le32, le64, le_u16_at, le_u32_at, le_u64_at};
use crate::text::lossy_text;

verus! {

/// Why a read or a parse stopped.
#[derive(Debug, Clone, Copy, PartialEq, Eq, Structural)]
pub enum ParseError {
    /// A read went past the end of the data.
    UnexpectedEof,
    /// An index string did not hold a decimal number that fits in 32 bits.
    InvalidIndex,
    /// The data breaks an arithmetic or slicing assumption of the format
    /// (a size that underflows, a slice past its buffer).
    Corrupt,
}

/// `n` bytes can be read at `p`: a read of them succeeds.
pub open spec fn fits(d: Seq<u8>, p: int, n: int) -> bool {
    0 <= p <= d.len() && 0 <= n && p + n <= d.len()
}

/// A read position over borrowed bytes. A successful read moves the position
/// past what it read; a failed read leaves it at the end of the data.
pub struct Cursor<'a> {
    pub data: &'a [u8],
    pub pos: usize,
}

/// The outcome of reading a length-prefixed string at `p`: its raw bytes and
/// the position after it.
pub open spec fn str_field(d: Seq<u8>, p: int) -> Result<(Seq<u8>, int), ParseError> {
    if !fits(d, p, 4) {
        Err(ParseError::UnexpectedEof)
    } else if !fits(d, p + 4, le32(d, p) as int) {
        Err(ParseError::UnexpectedEof)
    } else {
        Ok((d.subrange(p + 4, p + 4 + le32(d, p)), p + 4 + le32(d, p)))
    }
}

/// The outcome of reading a string at `p`, as text.
pub open spec fn text_field(d: Seq<u8>, p: int) -> Result<(Seq<u8>, int), ParseError> {
    match str_field(d, p) {
        Ok((raw, q)) => Ok((lossy_text(raw), q)),
        Err(e) => Err(e),
    }
}

/// The outcome of `read_arr` at `p`: the last four of twenty bytes.
pub open spec fn arr_field(d: Seq<u8>, p: int) -> Result<(Seq<u8>, int), ParseError> {
    if fits(d, p, 20) {
        Ok((d.subrange(p + 16, p + 20), p + 20))
    } else {
        Err(ParseError::UnexpectedEof)
    }
}

impl<'a> Cursor<'a> {
    pub fn new(data: &'a [u8]) -> (c: Cursor<'a>)
        ensures
            c.data@ == data@,
            c.pos == 0,
    {
        Cursor { data, pos: 0 }
    }

    /// Moves the position to `pos`, which may lie past the end.
    pub fn seek(&mut self, pos: usize)
        ensures
            final(self).data@ == old(self).data@,
            final(self).pos == pos,
    {
        self.pos = pos;
    }

    /// Reads `n` bytes.
    pub fn read_bytes(&mut self, n: usize) -> (r: Result<&'a [u8], ParseError>)
        ensures
            final(self).data@ == old(self).data@,
            fits(old(self).data@, old(self).pos as int, n as int) ==> {
                &&& r matches Ok(b)
                &&& b@ == old(self).data@.subrange(
                    old(self).pos as int,
                    old(self).pos + n,
                )
                &&& final(self).pos == old(self).pos + n
            },
            !fits(old(self).data@, old(self).pos as int, n as int) ==> {
                &&& r == Err::<&[u8], ParseError>(ParseError::UnexpectedEof)
                &&& final(self).pos == old(self).data@.len()
            },
    {
        let len = self.data.len();
        if self.pos <= len && n <= len - self.pos {
            let b = vstd::slice::slice_subrange(self.data, self.pos, self.pos + n);
            self.pos = self.pos + n;
            Ok(b)
        } else {
            self.pos = len;
            Err(ParseError::UnexpectedEof)
        }
    }

    pub fn read_u16_le(&mut self) -> (r: Result<u16, ParseError>)
        ensures
            final(self).data@ == old(self).data@,
            fits(old(self).data@, old(self).pos as int, 2) ==> {
                &&& r == Ok::<u16, ParseError>(le16(old(self).data@, old(self).pos as int))
                &&& final(self).pos == old(self).pos + 2
            },
            !fits(old(self).data@, old(self).pos as int, 2) ==> {
                &&& r == Err::<u16, ParseError>(ParseError::UnexpectedEof)
                &&& final(self).pos == old(self).data@.len()
            },
    {
        let b = self.read_bytes(2)?;
        Ok(le_u16_at(b, 0))
    }

    pub fn read_u32_le(&mut self) -> (r: Result<u32, ParseError>)
        ensures
            final(self).data@ == old(self).data@,
            fits(old(self).data@, old(self).pos as int, 4) ==> {
                &&& r == Ok::<u32, ParseError>(le32(old(self).data@, old(self).pos as int))
                &&& final(self).pos == old(self).pos + 4
            },
            !fits(old(self).data@, old(self).pos as int, 4) ==> {
                &&& r == Err::<u32, ParseError>(ParseError::UnexpectedEof)
                &&& final(self).pos == old(self).data@.len()
            },
    {
        let b = self.read_bytes(4)?;
        Ok(le_u32_at(b, 0))
    }

    pub fn read_u64_le(&mut self) -> (r: Result<u64, ParseError>)
        ensures
            final(self).data@ == old(self).data@,
            fits(old(self).data@, old(self).pos as int, 8) ==> {
                &&& r == Ok::<u64, ParseError>(le64(old(self).data@, old(self).pos as int))
                &&& final(self).pos == old(self).pos + 8
            },
            !fits(old(self).data@, old(self).pos as int, 8) ==> {
                &&& r == Err::<u64, ParseError>(ParseError::UnexpectedEof)
                &&& final(self).pos == old(self).data@.len()
            },
    {
        let b = self.read_bytes(8)?;
        proof {
            assert(le64(b@, 0) == le64(old(self).data@, old(self).pos as int));
        }
        Ok(le_u64_at(b, 0))
    }
}

} // verus!
