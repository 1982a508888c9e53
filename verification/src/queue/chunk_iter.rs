//! Handing out the chunks of a queue.
use vstd::prelude::*;

use super::byte_queue::ByteQueue;
use crate::bytedata::ByteData;

verus! {

/// An iterator over the chunks of a [`ByteQueue`].
pub struct ChunkIter<'a> {
    queue: ByteQueue<'a>,
}

impl<'a> ChunkIter<'a> {
    /// The chunks not yet handed out.
    pub closed spec fn spec_chunks(&self) -> Seq<ByteData<'a>> {
        self.queue.spec_chunks()
    }

    /// Hands out the chunks of `queue`.
    pub(crate) fn new(queue: ByteQueue<'a>) -> (res: Self)
        ensures
            res.spec_chunks() == queue.spec_chunks(),
    {
        ChunkIter { queue }
    }

    /// The next chunk from the front.
    pub fn next(&mut self) -> (res: Option<ByteData<'a>>)
        ensures
            old(self).spec_chunks().len() == 0 ==> res is None && final(self).spec_chunks()
                == old(self).spec_chunks(),
            old(self).spec_chunks().len() > 0 ==> res == Some(old(self).spec_chunks()[0])
                && final(self).spec_chunks() == old(self).spec_chunks().drop_first(),
    {
        self.queue.pop_front()
    }

    /// The next chunk from the back.
    pub fn next_back(&mut self) -> (res: Option<ByteData<'a>>)
        ensures
            old(self).spec_chunks().len() == 0 ==> res is None && final(self).spec_chunks()
                == old(self).spec_chunks(),
            old(self).spec_chunks().len() > 0 ==> res == Some(old(self).spec_chunks().last())
                && final(self).spec_chunks() == old(self).spec_chunks().drop_last(),
    {
        self.queue.pop_back()
    }

    /// The number of chunks not yet handed out.
    pub fn len(&self) -> (res: usize)
        ensures
            res == self.spec_chunks().len(),
    {
        self.queue.chunk_len()
    }
}

} // verus!
