//! A text buffer that supports appending and replacing ranges of characters.
use vstd::prelude::*;
use vstd::string::{StrSliceExecFns, StringExecFns};
use crate::error::ErrorKind;

verus! {

/// A buffer of text; positions count characters.
pub struct TextBuffer {
    buf: String,
}

impl View for TextBuffer {
    type V = Seq<char>;

    closed spec fn view(&self) -> Seq<char> {
        self.buf@
    }
}

impl TextBuffer {
    /// An empty buffer.
    pub fn new() -> (r: Self)
        ensures
            r@ == Seq::<char>::empty(),
    {
        Self { buf: String::new() }
    }

    /// Replaces the `length` characters from `start` on with `replacement`;
    /// fails, changing nothing, when they reach past the end of the buffer.
    pub fn replace(&mut self, start: usize, length: usize, replacement: &str) -> (r: Result<
        (),
        ErrorKind,
    >)
        ensures
            start + length <= old(self)@.len() ==> r is Ok && final(self)@ == old(self)@.subrange(
                0,
                start as int,
            ) + replacement@ + old(self)@.subrange(start + length, old(self)@.len() as int),
            start + length > old(self)@.len() ==> r == Err::<(), ErrorKind>(ErrorKind::BufferBounds)
                && final(self)@ == old(self)@,
    {
        let n = self.buf.as_str().unicode_len();
        if start > n || length > n - start {
            return Err(ErrorKind::BufferBounds);
        }
        let mut s = String::from_str(self.buf.as_str().substring_char(0, start));
        s.append(replacement);
        s.append(self.buf.as_str().substring_char(start + length, n));
        self.buf = s;
        Ok(())
    }

    /// The `length` characters from `start` on; fails when they reach past the
    /// end of the buffer.
    pub fn get(&self, start: usize, length: usize) -> (r: Result<String, ErrorKind>)
        ensures
            start + length <= self@.len() ==> (r matches Ok(s) && s@ == self@.subrange(
                start as int,
                start + length,
            )),
            start + length > self@.len() ==> r == Err::<String, ErrorKind>(ErrorKind::BufferBounds),
    {
        let n = self.buf.as_str().unicode_len();
        if start > n || length > n - start {
            return Err(ErrorKind::BufferBounds);
        }
        Ok(String::from_str(self.buf.as_str().substring_char(start, start + length)))
    }

    /// The number of characters in the buffer.
    pub fn len(&self) -> (r: usize)
        ensures
            r == self@.len(),
    {
        self.buf.as_str().unicode_len()
    }

    /// Appends `s`.
    pub fn add(&mut self, s: &str)
        ensures
            final(self)@ == old(self)@ + s@,
    {
        self.buf.append(s);
    }

    /// The contents.
    pub fn read(&self) -> (r: &String)
        ensures
            r@ == self@,
    {
        &self.buf
    }

    /// The contents, taking the buffer.
    pub fn consume(self) -> (r: String)
        ensures
            r@ == self@,
    {
        self.buf
    }
}

} // verus!
