//! The bytes removed from a queue by a drain.
use vstd::prelude::*;

use super::byte_iter::OwnedByteIter;
use super::byte_queue::ByteQueue;

verus! {

/// The bytes removed from a [`ByteQueue`] by [`ByteQueue::drain`].
pub struct DrainBytes<'a> {
    inner: OwnedByteIter<'a>,
}

impl<'a> View for DrainBytes<'a> {
    type V = Seq<u8>;

    closed spec fn view(&self) -> Seq<u8> {
        self.inner@
    }
}

impl<'a> DrainBytes<'a> {
    /// Hands out the bytes of `queue`.
    pub(crate) fn new(queue: ByteQueue<'a>) -> (res: Self)
        ensures
            res@ == queue@,
    {
        DrainBytes { inner: queue.into_bytes() }
    }

    /// The next removed byte.
    pub fn next(&mut self) -> (res: Option<u8>)
        ensures
            old(self)@.len() == 0 ==> res is None && final(self)@ == old(self)@,
            old(self)@.len() > 0 ==> res == Some(old(self)@[0]) && final(self)@ == old(
                self,
            )@.drop_first(),
    {
        self.inner.next()
    }

    /// The number of removed bytes not yet handed out.
    pub fn len(&self) -> (res: usize)
        ensures
            res == self@.len(),
    {
        self.inner.len()
    }

    /// Whether all removed bytes were handed out.
    pub fn is_empty(&self) -> (res: bool)
        ensures
            res == (self@.len() == 0),
    {
        self.inner.is_empty()
    }
}

} // verus!
