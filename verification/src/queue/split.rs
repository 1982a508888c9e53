//! Splitting a queue on a separator.
use vstd::prelude::*;

use super::byte_queue::{first_occurrence_from, never_occurs_from, ByteQueue};

verus! {

/// An iterator over the parts of a [`ByteQueue`] separated by a byte sequence.
pub struct SplitOn<'a, 'b> {
    queue: &'b ByteQueue<'a>,
    needle: &'b [u8],
    pos: usize,
    max: usize,
    done: bool,
}

impl<'a, 'b> SplitOn<'a, 'b> {
    #[verifier::type_invariant]
    spec fn inv(self) -> bool {
        &&& self.pos <= self.queue@.len()
        &&& self.needle@.len() > 0
    }

    /// The whole queue being split.
    pub closed spec fn spec_queue(&self) -> Seq<u8> {
        self.queue@
    }

    /// Where the next part starts.
    pub closed spec fn spec_pos(&self) -> int {
        self.pos as int
    }

    /// The bytes not yet handed out.
    pub closed spec fn spec_rest(&self) -> Seq<u8> {
        self.queue@.skip(self.pos as int)
    }

    /// The separator.
    pub closed spec fn spec_needle(&self) -> Seq<u8> {
        self.needle@
    }

    /// How many parts may still be handed out; zero means no limit.
    pub closed spec fn spec_max(&self) -> int {
        self.max as int
    }

    /// No part is left.
    pub closed spec fn spec_done(&self) -> bool {
        self.done
    }

    /// Splits `queue` on `needle` into at most `max` parts; zero means no limit.
    pub(crate) fn new(queue: &'b ByteQueue<'a>, needle: &'b [u8], max: usize) -> (res: Self)
        requires
            needle@.len() > 0,
        ensures
            res.spec_queue() == queue@,
            res.spec_pos() == 0,
            res.spec_rest() == queue@,
            res.spec_needle() == needle@,
            res.spec_max() == max,
            res.spec_done() == (queue@.len() == 0),
    {
        let done = queue.is_empty();
        let res = SplitOn { queue, needle, pos: 0, max, done };
        assert(queue@.skip(0) =~= queue@);
        res
    }

    /// The next part: the bytes up to the next separator, which is skipped; the
    /// rest where no separator follows or where the last allowed part is reached;
    /// an empty part where the data ends right after a separator.
    pub fn next(&mut self) -> (res: Option<ByteQueue<'a>>)
        ensures
            final(self).spec_queue() == old(self).spec_queue(),
            final(self).spec_needle() == old(self).spec_needle(),
            old(self).spec_done() ==> res is None && *final(self) == *old(self),
            !old(self).spec_done() && old(self).spec_pos() == old(self).spec_queue().len() ==> {
                &&& res matches Some(p) && p@ == Seq::<u8>::empty()
                &&& final(self).spec_done()
            },
            !old(self).spec_done() && old(self).spec_pos() < old(self).spec_queue().len()
                && old(self).spec_max() == 1 ==> {
                &&& res matches Some(p) && p@ == old(self).spec_rest()
                &&& final(self).spec_done()
            },
            !old(self).spec_done() && old(self).spec_pos() < old(self).spec_queue().len()
                && old(self).spec_max() != 1 && never_occurs_from(
                old(self).spec_queue(),
                old(self).spec_needle(),
                old(self).spec_pos(),
            ) ==> {
                &&& res matches Some(p) && p@ == old(self).spec_rest()
                &&& final(self).spec_done()
            },
            forall|p: int|
                !old(self).spec_done() && old(self).spec_pos() < old(self).spec_queue().len()
                    && old(self).spec_max() != 1 && first_occurrence_from(
                    old(self).spec_queue(),
                    old(self).spec_needle(),
                    old(self).spec_pos(),
                    p,
                ) ==> {
                    &&& res matches Some(part) && part@ == old(self).spec_queue().subrange(
                        old(self).spec_pos(),
                        p,
                    )
                    &&& final(self).spec_pos() == p + old(self).spec_needle().len()
                    &&& !final(self).spec_done()
                    &&& final(self).spec_max() == if old(self).spec_max() == 0 {
                        0
                    } else {
                        old(self).spec_max() - 1
                    }
                },
    {
        proof {
            use_type_invariant(&*self);
        }
        if self.done {
            return None;
        }
        let len = self.queue.len();
        if self.pos == len {
            self.done = true;
            return Some(ByteQueue::new());
        }
        if self.max == 1 {
            self.done = true;
            let part = self.queue.slice(self.pos..len);
            proof {
                assert(self.queue@.subrange(self.pos as int, len as int) =~= self.queue@.skip(
                    self.pos as int,
                ));
            }
            return Some(part);
        }
        match self.queue.find_slice_after(self.needle, self.pos) {
            Some(p) => {
                let part = self.queue.slice(self.pos..p);
                let q = self.queue;
                let needle = self.needle;
                let max = if self.max != 0 {
                    self.max - 1
                } else {
                    0
                };
                *self = SplitOn { queue: q, needle, pos: p + needle.len(), max, done: false };
                proof {
                    crate::slices::lemma_first_occurrence_from_unique(q@, needle@, p as int);
                }
                Some(part)
            },
            None => {
                self.done = true;
                let part = self.queue.slice(self.pos..len);
                proof {
                    assert(self.queue@.subrange(self.pos as int, len as int) =~= self.queue@.skip(
                        self.pos as int,
                    ));
                }
                Some(part)
            },
        }
    }

    /// Bounds on the number of parts still to come.
    pub fn size_hint(&self) -> (res: (usize, Option<usize>))
        ensures
            self.spec_done() ==> res == (0usize, Some(0usize)),
            !self.spec_done() ==> res.0 == 1 && res.1 == if self.spec_max() == 0 {
                None
            } else {
                Some(self.spec_max() as usize)
            },
    {
        if self.done {
            (0, Some(0))
        } else {
            let max = if self.max == 0 {
                None
            } else {
                Some(self.max)
            };
            (1, max)
        }
    }
}

} // verus!
