//! Decoding the characters of a text queue.
use vstd::prelude::*;
use vstd::utf8::*;

use super::byte_queue::ByteQueue;
use crate::char_indices::{decode_outcome, lead_width, lemma_first_scalar_alone, lemma_valid_decodes, next_char};

verus! {

/// The length of the encoding that a leading byte announces; zero where the
/// byte cannot start a character.
pub fn lead_width_of(b: u8) -> (res: usize)
    ensures
        res == lead_width(b),
{
    proof {
        utf8_byte_ranges_bitwise(b);
    }
    if b & 0b1000_0000 == 0 {
        1
    } else if b & 0b1110_0000 == 0b1100_0000 {
        2
    } else if b & 0b1111_0000 == 0b1110_0000 {
        3
    } else if b & 0b1111_1000 == 0b1111_0000 {
        4
    } else {
        0
    }
}

/// In valid UTF-8 the leading byte announces the length of the first character.
pub proof fn lemma_lead_width_valid(d: Seq<u8>)
    requires
        valid_utf8(d),
        d.len() > 0,
    ensures
        lead_width(d[0]) == length_of_first_scalar(d),
        1 <= length_of_first_scalar(d) <= d.len(),
{
    lemma_valid_decodes(d);
}

/// Decodes the character that starts at byte `pos` of a queue whose bytes from
/// there on are valid UTF-8, giving it with its length in bytes.
pub fn decode_char_at(q: &ByteQueue, pos: usize) -> (res: (char, usize))
    requires
        pos < q@.len(),
        valid_utf8(q@.skip(pos as int)),
    ensures
        res.0 == decode_utf8(q@.skip(pos as int))[0],
        res.1 == length_of_first_scalar(q@.skip(pos as int)),
        1 <= res.1,
        pos + res.1 <= q@.len(),
        valid_utf8(q@.skip(pos + res.1)),
        decode_utf8(q@.skip(pos as int)).drop_first() == decode_utf8(q@.skip(pos + res.1)),
{
    let ghost d = q@.skip(pos as int);
    q.check_well_formed();
    let b0 = q.get_byte(pos);
    proof {
        lemma_lead_width_valid(d);
        lemma_first_scalar_alone(d);
        assert(d[0] == b0);
    }
    let w = lead_width_of(b0);
    let mut buf: Vec<u8> = Vec::new();
    let mut k: usize = 0;
    while k < w
        invariant
            w == length_of_first_scalar(d),
            pos + w <= q@.len(),
            q@.len() <= usize::MAX,
            d == q@.skip(pos as int),
            k <= w,
            buf@ == d.take(k as int),
        decreases w - k,
    {
        let b = q.get_byte(pos + k);
        buf.push(b);
        proof {
            assert(d.take(k + 1) =~= d.take(k as int).push(d[k as int]));
        }
        k += 1;
    }
    proof {
        let t = d.take(w as int);
        assert(t.len() > 0);
        lemma_first_scalar_alone(t);
        assert(decode_first_scalar(t) == decode_first_scalar(d));
        assert(q@.skip(pos + w) =~= d.skip(w as int));
        assert(decode_utf8(d).drop_first() =~= decode_utf8(d.skip(w as int)));
    }
    let (c, _) = next_char(buf.as_slice());
    (c, w)
}

/// An iterator over the characters of a text queue, by reference.
pub struct CharIter<'a, 'b> {
    queue: &'b ByteQueue<'a>,
    pos: usize,
}

impl<'a, 'b> CharIter<'a, 'b> {
    #[verifier::type_invariant]
    spec fn inv(self) -> bool {
        &&& self.pos <= self.queue@.len()
        &&& valid_utf8(self.queue@.skip(self.pos as int))
    }

    /// The characters not yet handed out.
    pub closed spec fn spec_chars(&self) -> Seq<char> {
        decode_utf8(self.queue@.skip(self.pos as int))
    }

    /// The number of bytes not yet decoded.
    pub closed spec fn spec_byte_len(&self) -> int {
        self.queue@.len() - self.pos
    }

    /// Walks over the characters of a queue holding valid UTF-8.
    pub(crate) fn new(queue: &'b ByteQueue<'a>) -> (res: Self)
        requires
            valid_utf8(queue@),
        ensures
            res.spec_chars() == decode_utf8(queue@),
            res.spec_byte_len() == queue@.len(),
    {
        assert(queue@.skip(0) =~= queue@);
        CharIter { queue, pos: 0 }
    }

    /// The next character.
    pub fn next(&mut self) -> (res: Option<char>)
        ensures
            old(self).spec_chars().len() == 0 ==> res is None,
            old(self).spec_chars().len() > 0 ==> res == Some(old(self).spec_chars()[0])
                && final(self).spec_chars() == old(self).spec_chars().drop_first(),
    {
        proof {
            use_type_invariant(&*self);
        }
        let len = self.queue.len();
        if self.pos >= len {
            proof {
                assert(self.queue@.skip(self.pos as int) =~= Seq::<u8>::empty());
                assert(decode_utf8(Seq::<u8>::empty()) =~= Seq::<char>::empty());
            }
            return None;
        }
        let (c, w) = decode_char_at(self.queue, self.pos);
        let q = self.queue;
        *self = CharIter { queue: q, pos: self.pos + w };
        Some(c)
    }

    /// Bounds on the number of characters still to come: at least one per four
    /// bytes, at most one per byte.
    pub fn size_hint(&self) -> (res: (usize, Option<usize>))
        ensures
            res.0 == (self.spec_byte_len() + 3) / 4,
            res.1 == Some(self.spec_byte_len() as usize),
    {
        proof {
            use_type_invariant(self);
        }
        let av = self.queue.len() - self.pos;
        (av / 4 + if av % 4 == 0 {
            0
        } else {
            1
        }, Some(av))
    }
}

/// An iterator over the characters of a text queue with their byte positions.
pub struct CharIndecies<'a, 'b> {
    queue: &'b ByteQueue<'a>,
    pos: usize,
}

impl<'a, 'b> CharIndecies<'a, 'b> {
    #[verifier::type_invariant]
    spec fn inv(self) -> bool {
        &&& self.pos <= self.queue@.len()
        &&& valid_utf8(self.queue@.skip(self.pos as int))
    }

    /// The characters not yet handed out.
    pub closed spec fn spec_chars(&self) -> Seq<char> {
        decode_utf8(self.queue@.skip(self.pos as int))
    }

    /// The position of the next character.
    pub closed spec fn spec_pos(&self) -> int {
        self.pos as int
    }

    /// The whole text.
    pub closed spec fn spec_text(&self) -> Seq<u8> {
        self.queue@
    }

    /// Walks over the characters of a queue holding valid UTF-8.
    pub(crate) fn new(queue: &'b ByteQueue<'a>) -> (res: Self)
        requires
            valid_utf8(queue@),
        ensures
            res.spec_chars() == decode_utf8(queue@),
            res.spec_pos() == 0,
            res.spec_text() == queue@,
    {
        assert(queue@.skip(0) =~= queue@);
        CharIndecies { queue, pos: 0 }
    }

    /// The next character and where it starts.
    pub fn next(&mut self) -> (res: Option<(usize, char)>)
        ensures
            final(self).spec_text() == old(self).spec_text(),
            old(self).spec_chars().len() == 0 ==> res is None,
            old(self).spec_chars().len() > 0 ==> {
                &&& res == Some((old(self).spec_pos() as usize, old(self).spec_chars()[0]))
                &&& final(self).spec_chars() == old(self).spec_chars().drop_first()
                &&& final(self).spec_pos() == old(self).spec_pos() + length_of_first_scalar(
                    old(self).spec_text().skip(old(self).spec_pos()),
                )
            },
    {
        proof {
            use_type_invariant(&*self);
        }
        let len = self.queue.len();
        if self.pos >= len {
            proof {
                assert(self.queue@.skip(self.pos as int) =~= Seq::<u8>::empty());
                assert(decode_utf8(Seq::<u8>::empty()) =~= Seq::<char>::empty());
            }
            return None;
        }
        let (c, w) = decode_char_at(self.queue, self.pos);
        let pre = self.pos;
        let q = self.queue;
        *self = CharIndecies { queue: q, pos: self.pos + w };
        Some((pre, c))
    }
}

/// An iterator over the characters of a text queue that it owns.
pub struct OwnedCharIter<'a> {
    queue: ByteQueue<'a>,
}

impl<'a> OwnedCharIter<'a> {
    #[verifier::type_invariant]
    spec fn inv(self) -> bool {
        valid_utf8(self.queue@)
    }

    /// The characters not yet handed out.
    pub closed spec fn spec_chars(&self) -> Seq<char> {
        decode_utf8(self.queue@)
    }

    /// Walks over the characters of a queue holding valid UTF-8.
    pub(crate) fn new(queue: ByteQueue<'a>) -> (res: Self)
        requires
            valid_utf8(queue@),
        ensures
            res.spec_chars() == decode_utf8(queue@),
    {
        OwnedCharIter { queue }
    }

    /// The next character.
    pub fn next(&mut self) -> (res: Option<char>)
        ensures
            old(self).spec_chars().len() == 0 ==> res is None,
            old(self).spec_chars().len() > 0 ==> res == Some(old(self).spec_chars()[0])
                && final(self).spec_chars() == old(self).spec_chars().drop_first(),
    {
        proof {
            use_type_invariant(&*self);
        }
        if self.queue.is_empty() {
            proof {
                assert(self.queue@ =~= Seq::<u8>::empty());
                assert(decode_utf8(Seq::<u8>::empty()) =~= Seq::<char>::empty());
            }
            return None;
        }
        proof {
            assert(self.queue@.skip(0) =~= self.queue@);
        }
        let (c, w) = decode_char_at(&self.queue, 0);
        let mut taken = OwnedCharIter { queue: ByteQueue::new() };
        proof {
            assert(valid_utf8(Seq::<u8>::empty()));
        }
        core::mem::swap(self, &mut taken);
        let mut q = taken.queue;
        q.consume(w);
        *self = OwnedCharIter { queue: q };
        Some(c)
    }
}

/// The characters removed from a text queue by a drain.
pub struct DrainChars<'a> {
    inner: OwnedCharIter<'a>,
}

impl<'a> DrainChars<'a> {
    /// The characters not yet handed out.
    pub closed spec fn spec_chars(&self) -> Seq<char> {
        self.inner.spec_chars()
    }

    /// Hands out the characters of a queue holding valid UTF-8.
    pub(crate) fn new(queue: ByteQueue<'a>) -> (res: Self)
        requires
            valid_utf8(queue@),
        ensures
            res.spec_chars() == decode_utf8(queue@),
    {
        DrainChars { inner: OwnedCharIter::new(queue) }
    }

    /// The next removed character.
    pub fn next(&mut self) -> (res: Option<char>)
        ensures
            old(self).spec_chars().len() == 0 ==> res is None,
            old(self).spec_chars().len() > 0 ==> res == Some(old(self).spec_chars()[0])
                && final(self).spec_chars() == old(self).spec_chars().drop_first(),
    {
        self.inner.next()
    }
}

} // verus!
