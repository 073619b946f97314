//! A reading position in a buffer of bytes.

use vstd::prelude::*;
use vstd::slice::slice_subrange;

verus! {

/// A buffer of bytes and a position in it, from which the bytes are read one
/// after another.
pub struct Cursor<'a> {
    data: &'a [u8],
    pos: usize,
}

impl<'a> Cursor<'a> {
    /// The whole buffer.
    pub closed spec fn buffer(&self) -> Seq<u8> {
        self.data@
    }

    /// The position: the number of bytes that lie before the cursor.
    pub closed spec fn offset(&self) -> nat {
        self.pos as nat
    }

    /// The bytes from the position on: those that are still to be read.
    pub open spec fn rest(&self) -> Seq<u8> {
        if self.offset() <= self.buffer().len() {
            self.buffer().skip(self.offset() as int)
        } else {
            Seq::empty()
        }
    }

    /// A cursor at the start of `data`.
    pub fn new(data: &'a [u8]) -> (cursor: Self)
        ensures
            cursor.buffer() == data@,
            cursor.offset() == 0,
    {
        Cursor { data, pos: 0 }
    }

    /// The position.
    pub fn position(&self) -> (pos: usize)
        ensures
            pos == self.offset(),
    {
        self.pos
    }

    /// Moves the cursor to `pos`, which may lie behind the end of the buffer.
    pub fn set_position(&mut self, pos: usize)
        ensures
            final(self).buffer() == old(self).buffer(),
            final(self).offset() == pos,
    {
        self.pos = pos;
    }

    /// The whole buffer.
    pub fn get_ref(&self) -> (data: &'a [u8])
        ensures
            data@ == self.buffer(),
    {
        self.data
    }

    /// The length of the whole buffer.
    pub fn len(&self) -> (len: usize)
        ensures
            len == self.buffer().len(),
    {
        self.data.len()
    }

    /// The number of bytes that are still to be read.
    pub fn remaining(&self) -> (count: usize)
        ensures
            count == self.rest().len(),
    {
        if self.pos <= self.data.len() {
            self.data.len() - self.pos
        } else {
            0
        }
    }

    /// Whether any byte is still to be read.
    pub fn has_remaining(&self) -> (any: bool)
        ensures
            any == (self.rest().len() > 0),
    {
        self.pos < self.data.len()
    }

    /// Reads the byte at the position and steps over it.
    pub fn get_u8(&mut self) -> (byte: u8)
        requires
            old(self).rest().len() > 0,
        ensures
            byte == old(self).rest()[0],
            final(self).buffer() == old(self).buffer(),
            final(self).offset() == old(self).offset() + 1,
            final(self).rest() == old(self).rest().skip(1),
    {
        let byte = self.data[self.pos];
        self.pos = self.pos + 1;
        assert(self.rest() =~= old(self).rest().skip(1));
        byte
    }

    /// The byte that lies `ahead` bytes behind the position, which stays
    /// where it is.
    pub fn peek(&self, ahead: usize) -> (byte: u8)
        requires
            ahead < self.rest().len(),
        ensures
            byte == self.rest()[ahead as int],
    {
        assert(self.data@.len() == self.data.len());
        self.data[self.pos + ahead]
    }

    /// Steps over `count` bytes.
    pub fn advance(&mut self, count: usize)
        requires
            count <= old(self).rest().len(),
        ensures
            final(self).buffer() == old(self).buffer(),
            final(self).offset() == old(self).offset() + count,
            final(self).rest() == old(self).rest().skip(count as int),
    {
        assert(self.data@.len() == self.data.len());
        self.pos = self.pos + count;
        assert(self.rest() =~= old(self).rest().skip(count as int));
    }

    /// The bytes of the buffer from `start` up to `end`, the byte at `end` not
    /// included.
    pub fn slice(&self, start: usize, end: usize) -> (bytes: &'a [u8])
        requires
            start <= end <= self.buffer().len(),
        ensures
            bytes@ == self.buffer().subrange(start as int, end as int),
    {
        slice_subrange(self.data, start, end)
    }
}

} // verus!
