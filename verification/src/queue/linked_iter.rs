//! Walking over the chunks of a queue.
use vstd::prelude::*;

use super::byte_queue::ByteQueue;
use crate::bytedata::ByteData;

verus! {

/// An iterator over the chunks of a [`ByteQueue`], by reference.
pub struct LinkedIter<'a, 'b> {
    queue: &'b ByteQueue<'a>,
    index: usize,
}

impl<'a, 'b> LinkedIter<'a, 'b> {
    #[verifier::type_invariant]
    spec fn inv(self) -> bool {
        self.index <= self.queue.spec_chunks().len()
    }

    /// The chunks not yet visited.
    pub closed spec fn spec_remaining(&self) -> Seq<ByteData<'a>> {
        self.queue.spec_chunks().skip(self.index as int)
    }

    /// Walks over the chunks of `queue`.
    pub(crate) fn new(queue: &'b ByteQueue<'a>) -> (res: Self)
        ensures
            res.spec_remaining() == queue.spec_chunks(),
    {
        let res = LinkedIter { queue, index: 0 };
        assert(queue.spec_chunks().skip(0) =~= queue.spec_chunks());
        res
    }

    /// The next chunk.
    pub fn next(&mut self) -> (res: Option<&'b ByteData<'a>>)
        ensures
            old(self).spec_remaining().len() == 0 ==> res is None && final(self).spec_remaining()
                == old(self).spec_remaining(),
            old(self).spec_remaining().len() > 0 ==> res == Some(&old(self).spec_remaining()[0])
                && final(self).spec_remaining() == old(self).spec_remaining().drop_first(),
    {
        proof {
            use_type_invariant(&*self);
        }
        let n = self.queue.chunk_len();
        if self.index >= n {
            return None;
        }
        let i = self.index;
        let q = self.queue;
        let res = q.chunk_at(i);
        *self = LinkedIter { queue: q, index: i + 1 };
        proof {
            assert(q.spec_chunks().skip(i as int).drop_first() =~= q.spec_chunks().skip(i + 1));
        }
        Some(res)
    }

    /// Skips the next `n` chunks.
    pub fn skip(self, n: usize) -> (res: Self)
        ensures
            res.spec_remaining() == if n < self.spec_remaining().len() {
                self.spec_remaining().skip(n as int)
            } else {
                Seq::<ByteData<'a>>::empty()
            },
    {
        proof {
            use_type_invariant(&self);
        }
        let total = self.queue.chunk_len();
        let left = total - self.index;
        let new_index = if n < left {
            self.index + n
        } else {
            total
        };
        let res = LinkedIter { queue: self.queue, index: new_index };
        proof {
            assert(res.spec_remaining() =~= if n < left {
                self.spec_remaining().skip(n as int)
            } else {
                Seq::<ByteData<'a>>::empty()
            });
        }
        res
    }

    /// Skips the next `n` chunks, in place.
    pub fn skip_mut(&mut self, n: usize)
        ensures
            final(self).spec_remaining() == if n < old(self).spec_remaining().len() {
                old(self).spec_remaining().skip(n as int)
            } else {
                Seq::<ByteData<'a>>::empty()
            },
    {
        proof {
            use_type_invariant(&*self);
        }
        let total = self.queue.chunk_len();
        let left = total - self.index;
        let new_index = if n < left {
            self.index + n
        } else {
            total
        };
        let q = self.queue;
        *self = LinkedIter { queue: q, index: new_index };
        proof {
            assert(self.spec_remaining() =~= if n < left {
                old(self).spec_remaining().skip(n as int)
            } else {
                Seq::<ByteData<'a>>::empty()
            });
        }
    }

    /// The number of chunks not yet visited.
    pub fn len(&self) -> (res: usize)
        ensures
            res == self.spec_remaining().len(),
    {
        proof {
            use_type_invariant(self);
        }
        self.queue.chunk_len() - self.index
    }
}

} // verus!
