//! A read position over a window of bytes.

use vstd::prelude::*;

verus! {

/// A borrowed window of bytes together with a read position. The position
/// may lie at or past the end of the window; nothing is left to read then.
pub struct Cursor<'a> {
    data: &'a [u8],
    pos: usize,
}

impl<'a> Cursor<'a> {
    /// The bytes of the window.
    pub closed spec fn bytes(&self) -> Seq<u8> {
        self.data@
    }

    /// The read position, counted from the start of the window.
    pub closed spec fn offset(&self) -> int {
        self.pos as int
    }

    /// How many bytes lie at or after the read position.
    pub open spec fn left(&self) -> nat {
        if self.offset() <= self.bytes().len() {
            (self.bytes().len() - self.offset()) as nat
        } else {
            0
        }
    }

    /// A cursor at the start of `data`.
    pub fn new(data: &'a [u8]) -> (cur: Self)
        ensures
            cur.bytes() == data@,
            cur.offset() == 0,
            cur.left() == data@.len(),
    {
        Cursor { data, pos: 0 }
    }

    /// The window that the cursor reads from.
    pub fn get_ref(&self) -> (data: &'a [u8])
        ensures
            data@ == self.bytes(),
    {
        self.data
    }

    /// The read position.
    pub fn position(&self) -> (pos: usize)
        ensures
            pos == self.offset(),
    {
        self.pos
    }

    /// Moves the read position to `pos`.
    pub fn set_position(&mut self, pos: usize)
        ensures
            final(self).bytes() == old(self).bytes(),
            final(self).offset() == pos,
    {
        self.pos = pos;
    }

    /// The number of bytes left to read.
    pub fn remaining(&self) -> (n: usize)
        ensures
            n == self.left(),
    {
        if self.pos <= self.data.len() {
            self.data.len() - self.pos
        } else {
            0
        }
    }

    /// Reads one byte and steps past it.
    pub fn get_u8(&mut self) -> (b: u8)
        requires
            old(self).left() > 0,
        ensures
            b == old(self).bytes()[old(self).offset()],
            final(self).bytes() == old(self).bytes(),
            final(self).offset() == old(self).offset() + 1,
    {
        let b = self.data[self.pos];
        self.pos = self.pos + 1;
        b
    }
}

} // verus!
