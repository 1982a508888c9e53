//! Walking over the bytes of a queue.
use vstd::prelude::*;

use super::byte_queue::ByteQueue;

verus! {

/// An iterator over the bytes of a [`ByteQueue`], by reference.
pub struct ByteIter<'a, 'b> {
    queue: &'b ByteQueue<'a>,
    pos: usize,
    end: usize,
}

impl<'a, 'b> View for ByteIter<'a, 'b> {
    type V = Seq<u8>;

    closed spec fn view(&self) -> Seq<u8> {
        self.queue@.subrange(self.pos as int, self.end as int)
    }
}

impl<'a, 'b> ByteIter<'a, 'b> {
    #[verifier::type_invariant]
    spec fn inv(self) -> bool {
        self.pos <= self.end <= self.queue@.len()
    }

    /// Walks over the bytes of `queue`.
    pub(crate) fn new(queue: &'b ByteQueue<'a>) -> (res: Self)
        ensures
            res@ == queue@,
    {
        let end = queue.len();
        let res = ByteIter { queue, pos: 0, end };
        assert(res@ =~= queue@);
        res
    }

    /// Skip the next `n` bytes.
    pub fn skip(self, n: usize) -> (res: Self)
        ensures
            res@ == if n < self@.len() {
                self@.skip(n as int)
            } else {
                Seq::<u8>::empty()
            },
    {
        let mut this = self;
        this.skip_mut(n);
        this
    }

    /// Skip the next `n` bytes, in place.
    pub(crate) fn skip_mut(&mut self, n: usize)
        ensures
            final(self)@ == if n < old(self)@.len() {
                old(self)@.skip(n as int)
            } else {
                Seq::<u8>::empty()
            },
    {
        proof {
            use_type_invariant(&*self);
        }
        let ghost before = self@;
        let left = self.end - self.pos;
        let q = self.queue;
        let end = self.end;
        if n < left {
            *self = ByteIter { queue: q, pos: self.pos + n, end };
        } else {
            *self = ByteIter { queue: q, pos: end, end };
        }
        assert(self@ =~= if n < before.len() {
            before.skip(n as int)
        } else {
            Seq::<u8>::empty()
        });
    }

    /// Limit the iterator to at most `n` bytes.
    pub fn take(self, n: usize) -> (res: Self)
        ensures
            res@ == if n < self@.len() {
                self@.take(n as int)
            } else {
                self@
            },
    {
        proof {
            use_type_invariant(&self);
        }
        let left = self.end - self.pos;
        if n < left {
            let res = ByteIter { queue: self.queue, pos: self.pos, end: self.pos + n };
            assert(res@ =~= self@.take(n as int));
            res
        } else {
            self
        }
    }

    /// Get the number of bytes remaining in the iterator.
    pub fn len(&self) -> (res: usize)
        ensures
            res == self@.len(),
    {
        proof {
            use_type_invariant(self);
        }
        self.end - self.pos
    }

    /// Whether no bytes remain in the iterator.
    pub fn is_empty(&self) -> (res: bool)
        ensures
            res == (self@.len() == 0),
    {
        self.len() == 0
    }

    /// The next byte.
    pub fn next(&mut self) -> (res: Option<u8>)
        ensures
            old(self)@.len() == 0 ==> res is None && final(self)@ == old(self)@,
            old(self)@.len() > 0 ==> res == Some(old(self)@[0]) && final(self)@ == old(
                self,
            )@.drop_first(),
    {
        proof {
            use_type_invariant(&*self);
        }
        if self.pos >= self.end {
            return None;
        }
        let ghost before = self@;
        let b = self.queue.get_byte(self.pos);
        let q = self.queue;
        let end = self.end;
        *self = ByteIter { queue: q, pos: self.pos + 1, end };
        assert(self@ =~= before.drop_first());
        Some(b)
    }
}

/// An iterator over the bytes of a [`ByteQueue`] that it owns.
pub struct OwnedByteIter<'a> {
    inner: ByteQueue<'a>,
}

impl<'a> View for OwnedByteIter<'a> {
    type V = Seq<u8>;

    closed spec fn view(&self) -> Seq<u8> {
        self.inner@
    }
}

impl<'a> OwnedByteIter<'a> {
    /// Walks over the bytes of `queue`.
    pub(crate) fn new(queue: ByteQueue<'a>) -> (res: Self)
        ensures
            res@ == queue@,
    {
        OwnedByteIter { inner: queue }
    }

    /// Skip the next `n` bytes.
    pub fn skip(self, n: usize) -> (res: Self)
        ensures
            res@ == if n < self@.len() {
                self@.skip(n as int)
            } else {
                Seq::<u8>::empty()
            },
    {
        let mut this = self;
        this.skip_mut(n);
        this
    }

    /// Skip the next `n` bytes, in place.
    fn skip_mut(&mut self, n: usize)
        ensures
            final(self)@ == if n < old(self)@.len() {
                old(self)@.skip(n as int)
            } else {
                Seq::<u8>::empty()
            },
    {
        let len = self.inner.len();
        if n < len {
            self.inner.consume(n);
        } else {
            self.inner.consume(len);
            assert(self.inner@ =~= Seq::<u8>::empty());
        }
    }

    /// Limit the iterator to at most `n` bytes.
    pub fn take(self, n: usize) -> (res: Self)
        ensures
            res@ == if n < self@.len() {
                self@.take(n as int)
            } else {
                self@
            },
    {
        let mut this = self;
        if n < this.inner.len() {
            let _rest = this.inner.split_off(n);
        }
        this
    }

    /// Get the number of bytes remaining in the iterator.
    pub fn len(&self) -> (res: usize)
        ensures
            res == self@.len(),
    {
        self.inner.len()
    }

    /// Whether no bytes remain in the iterator.
    pub fn is_empty(&self) -> (res: bool)
        ensures
            res == (self@.len() == 0),
    {
        self.inner.is_empty()
    }

    /// The next byte.
    pub fn next(&mut self) -> (res: Option<u8>)
        ensures
            old(self)@.len() == 0 ==> res is None && final(self)@ == old(self)@,
            old(self)@.len() > 0 ==> res == Some(old(self)@[0]) && final(self)@ == old(
                self,
            )@.drop_first(),
    {
        let ghost before = self@;
        self.inner.check_well_formed();
        match self.inner.pop_front() {
            None => None,
            Some(av) => {
                let bv = av.get(0);
                let n = av.len();
                if n > 1 {
                    let mut av = av;
                    av.make_sliced(1..n);
                    self.inner.push_front(av);
                }
                assert(self@ =~= before.drop_first());
                Some(bv)
            },
        }
    }

    /// The last byte, consuming the iterator.
    pub fn last(self) -> (res: Option<u8>)
        ensures
            self@.len() == 0 ==> res is None,
            self@.len() > 0 ==> res == Some(self@.last()),
    {
        let mut this = self;
        match this.inner.pop_back() {
            None => None,
            Some(av) => {
                let n = av.len();
                Some(av.get(n - 1))
            },
        }
    }

    /// The byte `n` places ahead, skipping the ones before it.
    pub fn nth(&mut self, n: usize) -> (res: Option<u8>)
        ensures
            n < old(self)@.len() ==> res == Some(old(self)@[n as int]) && final(self)@ == old(
                self,
            )@.skip(n + 1),
            n >= old(self)@.len() ==> res is None && final(self)@ == Seq::<u8>::empty(),
    {
        let ghost before = self@;
        self.skip_mut(n);
        let r = self.next();
        proof {
            if n < before.len() {
                assert(before.skip(n as int).drop_first() =~= before.skip(n + 1));
            }
        }
        r
    }

    /// The number of bytes remaining, consuming the iterator.
    pub fn count(self) -> (res: usize)
        ensures
            res == self@.len(),
    {
        self.inner.len()
    }
}

} // verus!
