//! A positioned view over a byte buffer.
//!
//! [`Cursor`] pairs a buffer with an offset. On the write side the buffer
//! is any [`Bytes`] sink and the offset advances past each written slice;
//! on the read side the buffer is a borrowed byte slice and reads hand out
//! zero-copy windows that live as long as the underlying buffer.
use vstd::prelude::*;

verus! {

use vstd::slice::slice_subrange;
use crate::error::Error;

/// An append-or-overwrite byte destination addressed by offset.
pub trait Bytes: View<V = Seq<u8>> {
    /// Writes `slice` at `offset`, growing the buffer if needed, and
    /// returns the offset just past the written bytes.
    fn write_slice_at(&mut self, offset: usize, slice: &[u8]) -> (r: usize)
        requires
            offset <= old(self)@.len(),
            offset + slice@.len() <= usize::MAX,
        ensures
            r == offset + slice@.len(),
            final(self)@ == old(self)@.take(offset as int) + slice@ + (if offset + slice@.len()
                < old(self)@.len() {
                old(self)@.skip(offset + slice@.len())
            } else {
                Seq::empty()
            }),
    ;
}

impl Bytes for Vec<u8> {
    fn write_slice_at(&mut self, offset: usize, slice: &[u8]) -> (r: usize) {
        let mut i: usize = 0;
        while i < slice.len() && offset + i < self.len()
            invariant
                i <= slice@.len(),
                offset + slice@.len() <= usize::MAX,
                offset + i <= self@.len(),
                self@.len() == old(self)@.len(),
                self@ == old(self)@.take(offset as int) + slice@.take(i as int) + old(
                    self,
                )@.skip(offset + i),
            decreases slice@.len() - i,
        {
            self.set(offset + i, slice[i]);
            proof {
                assert(self@ =~= old(self)@.take(offset as int) + slice@.take(i + 1) + old(
                    self,
                )@.skip(offset + i + 1));
            }
            i = i + 1;
        }
        while i < slice.len()
            invariant
                i <= slice@.len(),
                offset + slice@.len() <= usize::MAX,
                self@.len() == offset + i >= old(self)@.len() || (i == slice@.len() && self@.len()
                    == old(self)@.len()),
                self@ == old(self)@.take(offset as int) + slice@.take(i as int) + (if offset + i
                    < old(self)@.len() {
                    old(self)@.skip(offset + i)
                } else {
                    Seq::<u8>::empty()
                }),
            decreases slice@.len() - i,
        {
            self.push(slice[i]);
            proof {
                assert(self@ =~= old(self)@.take(offset as int) + slice@.take(i + 1)
                    + Seq::<u8>::empty());
            }
            i = i + 1;
        }
        proof {
            assert(slice@.take(slice@.len() as int) =~= slice@);
        }
        offset + slice.len()
    }
}

/// A buffer paired with a current offset.
#[derive(Debug, Default)]
pub struct Cursor<T> {
    /// The underlying buffer.
    pub data: T,
    /// The current position within the buffer.
    pub offset: usize,
}

impl<T> Cursor<T> {
    /// Starts a cursor at the beginning of `data`.
    pub fn new(data: T) -> (r: Self)
        ensures
            r.data == data,
            r.offset == 0,
    {
        Cursor { data, offset: 0 }
    }
}

impl<T: Bytes> Cursor<T> {
    /// Writes a slice at the current offset and advances past it.
    pub fn write_slice(&mut self, slice: &[u8])
        requires
            old(self).offset <= old(self).data@.len(),
            old(self).offset + slice@.len() <= usize::MAX,
        ensures
            final(self).offset == old(self).offset + slice@.len(),
            final(self).data@ == old(self).data@.take(old(self).offset as int) + slice@ + (if old(
                self,
            ).offset + slice@.len() < old(self).data@.len() {
                old(self).data@.skip(old(self).offset + slice@.len())
            } else {
                Seq::empty()
            }),
    {
        self.offset = self.data.write_slice_at(self.offset, slice);
    }
}

impl<'de> Cursor<&'de [u8]> {
    /// Returns the remaining bytes from the current offset, without
    /// changing the offset.
    pub fn remaining_slice(&self) -> (r: &'de [u8])
        ensures
            r@ == (if self.offset <= self.data@.len() {
                self.data@.skip(self.offset as int)
            } else {
                Seq::empty()
            }),
    {
        if self.offset <= self.data.len() {
            slice_subrange(self.data, self.offset, self.data.len())
        } else {
            let empty = slice_subrange(self.data, self.data.len(), self.data.len());
            proof {
                assert(empty@ =~= Seq::<u8>::empty());
            }
            empty
        }
    }

    /// Reads `len` bytes from the current offset as a zero-copy window,
    /// failing with insufficient bytes when fewer remain.
    pub fn read_slice(&mut self, len: usize) -> (r: Result<&'de [u8], Error>)
        requires
            old(self).offset <= old(self).data@.len(),
        ensures
            final(self).data == old(self).data,
            old(self).offset + len <= old(self).data@.len() ==> (r matches Ok(s) && s@ == old(
                self,
            ).data@.subrange(old(self).offset as int, old(self).offset + len) && final(self).offset
                == old(self).offset + len),
            old(self).offset + len > old(self).data@.len() ==> r == Err::<&'de [u8], Error>(
                Error::insufficient_bytes(),
            ) && final(self).offset == old(self).offset,
    {
        if len > self.data.len() - self.offset {
            return Err(Error::InsufficientBytes(crate::error::InsufficientBytes));
        }
        let s = slice_subrange(self.data, self.offset, self.offset + len);
        self.offset = self.offset + len;
        Ok(s)
    }
}

} // verus!
