//! An in-memory byte source that is read front to back.

use crate::endian::{be_i32, be_u16, be_u32, decode_i32, decode_u16, decode_u32};
use vstd::prelude::*;
use vstd::slice::slice_subrange;

verus! {

/// Why a read failed.
#[derive(Debug, Clone, Copy, PartialEq, Eq, Structural)]
pub enum ReadError {
    /// The source ended before the field or record was complete.
    UnexpectedEof,
}

/// A byte source over a slice. Its view is the sequence of bytes not yet
/// read; every successful read removes what it decoded from the front.
#[derive(Debug)]
pub struct ByteReader<'a> {
    rest: &'a [u8],
}

impl<'a> View for ByteReader<'a> {
    type V = Seq<u8>;

    closed spec fn view(&self) -> Seq<u8> {
        self.rest@
    }
}

impl<'a> ByteReader<'a> {
    /// A source positioned at the first byte of `bytes`.
    pub fn new(bytes: &'a [u8]) -> (r: Self)
        ensures
            r@ == bytes@,
    {
        ByteReader { rest: bytes }
    }

    /// The number of bytes not yet read.
    pub fn remaining(&self) -> (n: usize)
        ensures
            n == self@.len(),
    {
        self.rest.len()
    }

    /// Reads one byte.
    pub fn read_u8(&mut self) -> (res: Result<u8, ReadError>)
        ensures
            match res {
                Ok(v) => old(self)@.len() >= 1 && v == old(self)@[0] && final(self)@ == old(self)@.skip(1),
                Err(e) => old(self)@.len() < 1 && e == ReadError::UnexpectedEof && final(self)@ == old(self)@,
            },
    {
        if self.rest.len() < 1 {
            return Err(ReadError::UnexpectedEof);
        }
        let v = self.rest[0];
        self.rest = slice_subrange(self.rest, 1, self.rest.len());
        Ok(v)
    }

    /// Reads a big-endian unsigned 16-bit integer.
    pub fn read_u16(&mut self) -> (res: Result<u16, ReadError>)
        ensures
            match res {
                Ok(v) => old(self)@.len() >= 2 && v == be_u16(old(self)@) && final(self)@ == old(self)@.skip(2),
                Err(e) => old(self)@.len() < 2 && e == ReadError::UnexpectedEof && final(self)@ == old(self)@,
            },
    {
        if self.rest.len() < 2 {
            return Err(ReadError::UnexpectedEof);
        }
        let v = decode_u16(self.rest);
        self.rest = slice_subrange(self.rest, 2, self.rest.len());
        Ok(v)
    }

    /// Reads a big-endian unsigned 32-bit integer.
    pub fn read_u32(&mut self) -> (res: Result<u32, ReadError>)
        ensures
            match res {
                Ok(v) => old(self)@.len() >= 4 && v == be_u32(old(self)@) && final(self)@ == old(self)@.skip(4),
                Err(e) => old(self)@.len() < 4 && e == ReadError::UnexpectedEof && final(self)@ == old(self)@,
            },
    {
        if self.rest.len() < 4 {
            return Err(ReadError::UnexpectedEof);
        }
        let v = decode_u32(self.rest);
        self.rest = slice_subrange(self.rest, 4, self.rest.len());
        Ok(v)
    }

    /// Reads a big-endian signed 32-bit integer.
    pub fn read_i32(&mut self) -> (res: Result<i32, ReadError>)
        ensures
            match res {
                Ok(v) => old(self)@.len() >= 4 && v == be_i32(old(self)@) && final(self)@ == old(self)@.skip(4),
                Err(e) => old(self)@.len() < 4 && e == ReadError::UnexpectedEof && final(self)@ == old(self)@,
            },
    {
        if self.rest.len() < 4 {
            return Err(ReadError::UnexpectedEof);
        }
        let v = decode_i32(self.rest);
        self.rest = slice_subrange(self.rest, 4, self.rest.len());
        Ok(v)
    }
}

} // verus!
