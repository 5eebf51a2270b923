//! A forward cursor over a borrowed byte buffer, with position tracking.
//!
//! This is the only primitive the record framer uses. It never copies the
//! underlying buffer; every read hands back a sub-slice.

use vstd::prelude::*;

verus! {

/// A read position over a borrowed byte slice.
pub struct Cursor<'a> {
    pub inner: &'a [u8],
    pub cursor: usize,
}

impl<'a> Cursor<'a> {
    /// A cursor at the start of the buffer.
    pub fn new(b: &'a [u8]) -> (r: Self)
        ensures
            r.inner@ == b@,
            r.cursor == 0,
    {
        Cursor { inner: b, cursor: 0 }
    }

    /// The current position.
    pub fn position(&self) -> (r: usize)
        ensures
            r == self.cursor,
    {
        self.cursor
    }

    /// Move to an absolute position.
    pub fn set_position(&mut self, pos: usize)
        ensures
            final(self).inner@ == old(self).inner@,
            final(self).cursor == pos,
    {
        self.cursor = pos;
    }

    /// Move to an absolute position.
    pub fn jump(&mut self, pos: usize)
        ensures
            final(self).inner@ == old(self).inner@,
            final(self).cursor == pos,
    {
        self.cursor = pos;
    }

    /// Advance the position by `n` bytes.
    pub fn jump_forward(&mut self, n: usize)
        requires
            old(self).cursor + n <= usize::MAX,
        ensures
            final(self).inner@ == old(self).inner@,
            final(self).cursor == old(self).cursor + n,
    {
        self.cursor = self.cursor + n;
    }

    /// The bytes from the position to the end; the cursor moves to the end.
    pub fn remaining(&mut self) -> (r: &'a [u8])
        requires
            old(self).cursor <= old(self).inner@.len(),
        ensures
            final(self).inner@ == old(self).inner@,
            final(self).cursor == old(self).inner@.len(),
            r@ == old(self).inner@.subrange(old(self).cursor as int, old(self).inner@.len() as int),
    {
        let r = vstd::slice::slice_subrange(self.inner, self.cursor, self.inner.len());
        self.cursor = self.inner.len();
        r
    }

    /// How many bytes remain past the position.
    pub fn remaining_len(&self) -> (r: usize)
        requires
            self.cursor <= self.inner@.len(),
        ensures
            r == self.inner@.len() - self.cursor,
    {
        self.inner.len() - self.cursor
    }

    /// Read one byte and advance.
    pub fn next(&mut self) -> (r: u8)
        requires
            old(self).cursor < old(self).inner@.len(),
        ensures
            final(self).inner@ == old(self).inner@,
            final(self).cursor == old(self).cursor + 1,
            r == old(self).inner@[old(self).cursor as int],
    {
        let r = self.inner[self.cursor];
        self.cursor = self.cursor + 1;
        r
    }

    /// Read `len` bytes without advancing.
    pub fn peek(&self, len: usize) -> (r: &'a [u8])
        requires
            self.cursor + len <= self.inner@.len(),
        ensures
            r@ == self.inner@.subrange(self.cursor as int, self.cursor + len),
    {
        let n = self.inner.len();
        vstd::slice::slice_subrange(self.inner, self.cursor, self.cursor + len)
    }

    /// Read `len` bytes and advance past them.
    pub fn get(&mut self, len: usize) -> (r: &'a [u8])
        requires
            old(self).cursor + len <= old(self).inner@.len(),
        ensures
            final(self).inner@ == old(self).inner@,
            final(self).cursor == old(self).cursor + len,
            r@ == old(self).inner@.subrange(old(self).cursor as int, old(self).cursor + len),
    {
        let n = self.inner.len();
        let r = vstd::slice::slice_subrange(self.inner, self.cursor, self.cursor + len);
        self.cursor = self.cursor + len;
        r
    }

    /// Seek to `p` bytes from the start.
    pub fn seek_from_start(&mut self, p: usize)
        ensures
            final(self).inner@ == old(self).inner@,
            final(self).cursor == p,
    {
        self.cursor = p;
    }

    /// Seek to `p` bytes before the end.
    pub fn seek_from_end(&mut self, p: usize)
        requires
            p <= old(self).inner@.len(),
        ensures
            final(self).inner@ == old(self).inner@,
            final(self).cursor == old(self).inner@.len() - p,
    {
        self.cursor = self.inner.len() - p;
    }
}

} // verus!
