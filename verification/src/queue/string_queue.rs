//! A queue of text chunks.
use vstd::prelude::*;
use vstd::string::StringSliceAdditionalSpecFns;
use vstd::utf8::*;

use super::byte_queue::{
    first_occurrence_from, flat, lemma_flat_first, lemma_flat_last, lemma_flat_push,
    never_occurs_from, ByteQueue,
};
use super::char_iter::{CharIndecies, CharIter, DrainChars, OwnedCharIter};
use crate::bytedata::ByteData;
use crate::char_indices::{lead_width, lemma_decode_concat, lemma_first_scalar_alone};
use crate::stringdata::{all_chars, lemma_valid_subrange, StringData};

verus! {

/// All the bytes of the texts, one text after the other.
pub open spec fn flat_text<'a>(s: Seq<StringData<'a>>) -> Seq<u8> {
    s.map_values(|d: StringData<'a>| d@).flatten()
}

/// Adding a text at the front adds its bytes at the front.
proof fn lemma_flat_text_push_front<'a>(s: Seq<StringData<'a>>, d: StringData<'a>)
    ensures
        flat_text(seq![d] + s) == d@ + flat_text(s),
{
    let v = (seq![d] + s).map_values(|x: StringData<'a>| x@);
    assert(v.first() == d@);
    assert(v.drop_first() =~= s.map_values(|x: StringData<'a>| x@));
}

/// The bytes of the texts from `i` on are no more than those of all of them.
proof fn lemma_flat_text_suffix<'a>(s: Seq<StringData<'a>>, i: int)
    requires
        0 <= i <= s.len(),
    ensures
        flat_text(s.skip(i)).len() <= flat_text(s).len(),
    decreases i,
{
    if i > 0 {
        lemma_flat_text_suffix(s, i - 1);
        lemma_flat_text_push_front(s.skip(i), s[i - 1]);
        assert(seq![s[i - 1]] + s.skip(i) =~= s.skip(i - 1));
    } else {
        assert(s.skip(0) =~= s);
    }
}

/// Every chunk is valid UTF-8.
pub open spec fn chunks_valid<'a>(s: Seq<ByteData<'a>>) -> bool {
    forall|i: int| 0 <= i < s.len() ==> valid_utf8(#[trigger] s[i]@)
}

/// Chunks that are each valid UTF-8 make up valid UTF-8.
pub proof fn lemma_chunks_valid<'a>(s: Seq<ByteData<'a>>)
    requires
        chunks_valid(s),
    ensures
        valid_utf8(flat(s)),
    decreases s.len(),
{
    if s.len() == 0 {
        assert(flat(s) =~= Seq::<u8>::empty());
    } else {
        let init = s.subrange(0, s.len() - 1);
        assert(chunks_valid(init)) by {
            assert forall|i: int| 0 <= i < init.len() implies valid_utf8(#[trigger] init[i]@) by {
                assert(init[i] == s[i]);
            }
        }
        lemma_chunks_valid(init);
        lemma_flat_last(s);
        lemma_decode_concat(flat(init), s[s.len() - 1]@);
    }
}

/// What follows a valid prefix of valid UTF-8 is valid UTF-8.
pub proof fn lemma_valid_rest(a: Seq<u8>, b: Seq<u8>)
    requires
        valid_utf8(a + b),
        valid_utf8(a),
    ensures
        valid_utf8(b),
    decreases a.len(),
{
    if a.len() == 0 {
        assert(a + b =~= b);
    } else {
        let w = length_of_first_scalar(a);
        lemma_first_scalar_alone(a);
        crate::char_indices::lemma_valid_decodes(a);
        let ab = a + b;
        assert(forall|k: int| 0 <= k < a.len() ==> ab[k] == a[k]);
        assert(length_of_first_scalar(ab) == w);
        assert(pop_first_scalar(ab) =~= a.skip(w) + b);
        assert(a.skip(w) =~= pop_first_scalar(a));
        lemma_valid_rest(a.skip(w), b);
    }
}

/// There are no more characters than bytes.
pub proof fn lemma_char_count_le_bytes(d: Seq<u8>)
    requires
        valid_utf8(d),
    ensures
        decode_utf8(d).len() <= d.len(),
    decreases d.len(),
{
    if d.len() > 0 {
        lemma_first_scalar_alone(d);
        crate::char_indices::lemma_valid_decodes(d);
        lemma_char_count_le_bytes(d.skip(length_of_first_scalar(d)));
    }
}

/// A position in text is a character boundary when it is the end or holds no
/// continuation byte.
pub open spec fn is_boundary(d: Seq<u8>, pos: int) -> bool {
    0 <= pos <= d.len() && (pos == d.len() || !is_continuation_byte(d[pos]))
}

/// A queue of strings.
pub struct StringQueue<'a> {
    queue: ByteQueue<'a>,
}

impl<'a> View for StringQueue<'a> {
    type V = Seq<u8>;

    closed spec fn view(&self) -> Seq<u8> {
        self.queue@
    }
}

impl<'a> StringQueue<'a> {
    #[verifier::type_invariant]
    spec fn inv(self) -> bool {
        chunks_valid(self.queue.spec_chunks())
    }

    /// The characters of the text.
    pub open spec fn spec_chars(&self) -> Seq<char> {
        decode_utf8(self@)
    }

    /// The chunks of the queue.
    pub closed spec fn spec_chunks(&self) -> Seq<ByteData<'a>> {
        self.queue.spec_chunks()
    }

    /// Every queue holds valid UTF-8.
    pub fn check_valid(&self)
        ensures
            valid_utf8(self@),
            self@.len() <= usize::MAX,
    {
        proof {
            use_type_invariant(self);
            lemma_chunks_valid(self.spec_chunks());
        }
        self.queue.check_well_formed();
    }

    /// Create a new empty `StringQueue`.
    pub fn new() -> (res: Self)
        ensures
            res@ == Seq::<u8>::empty(),
            res.spec_chunks().len() == 0,
    {
        StringQueue { queue: ByteQueue::new() }
    }

    /// Create a new `StringQueue` with a single item.
    pub fn with_item(data: StringData<'a>) -> (res: Self)
        ensures
            res@ == data@,
    {
        let mut res = Self::new();
        let _n = data.len();
        res.push_back(data);
        assert(res@ =~= data@);
        res
    }

    /// Get the inner bytequeue.
    pub fn as_bytequeue(&self) -> (res: &ByteQueue<'a>)
        ensures
            res@ == self@,
    {
        &self.queue
    }

    /// Get the inner bytequeue.
    pub fn into_bytequeue(self) -> (res: ByteQueue<'a>)
        ensures
            res@ == self@,
    {
        let StringQueue { queue } = self;
        queue
    }

    /// Ensures that all chunks in the queue are independent of borrowed data so
    /// they can be used for any lifetime. Borrowed chunks are copied into
    /// shared buffers, so each must fit in one.
    pub fn into_shared<'o>(self) -> (res: StringQueue<'o>)
        requires
            self@.len() + 12 <= 0xFFFF_FFFF,
        ensures
            res@ == self@,
            forall|i: int|
                0 <= i < res.spec_chunks().len() ==> #[trigger] res.spec_chunks()[i].spec_is_owned_or_static(),
    {
        let ghost orig = self@;
        let mut src = self;
        src.check_valid();
        let mut out: StringQueue<'o> = StringQueue::new();
        loop
            invariant
                out@ + src@ == orig,
                orig.len() + 12 <= 0xFFFF_FFFF,
                forall|i: int|
                    0 <= i < out.spec_chunks().len() ==> #[trigger] out.spec_chunks()[i].spec_is_owned_or_static(),
            ensures
                out@ == orig,
                forall|i: int|
                    0 <= i < out.spec_chunks().len() ==> #[trigger] out.spec_chunks()[i].spec_is_owned_or_static(),
            decreases src@.len(),
        {
            match src.pop_front() {
                None => {
                    proof {
                        assert(src@ =~= Seq::<u8>::empty());
                        assert(out@ + src@ =~= out@);
                    }
                    break;
                },
                Some(d) => {
                    let s = d.into_shared();
                    out.push_back(s);
                    proof {
                        assert(out@ + src@ =~= orig);
                    }
                },
            }
        }
        out
    }

    /// Ensures that all chunks in the queue are independent of borrowed data, in
    /// place. Borrowed chunks are copied into shared buffers, so each must fit in one.
    pub fn make_shared(&mut self)
        requires
            old(self)@.len() + 12 <= 0xFFFF_FFFF,
        ensures
            final(self)@ == old(self)@,
            forall|i: int|
                0 <= i < final(self).spec_chunks().len()
                    ==> #[trigger] final(self).spec_chunks()[i].spec_is_owned_or_static(),
    {
        let mut taken = StringQueue::new();
        core::mem::swap(self, &mut taken);
        *self = taken.into_shared();
    }

    /// Checks if the queue is full; a queue on the heap never is.
    pub fn is_full(&self) -> (res: bool)
        ensures
            !res,
    {
        self.queue.is_full()
    }

    /// A queue of the given texts, in order.
    pub fn from_iter(items: Vec<StringData<'a>>) -> (res: Self)
        requires
            flat_text(items@).len() <= usize::MAX,
        ensures
            res@ == flat_text(items@),
    {
        let ghost orig = items@;
        let mut items = items;
        let mut out = Self::new();
        proof {
            assert(orig.skip(orig.len() as int) =~= Seq::<StringData<'a>>::empty());
            assert(flat_text(Seq::<StringData<'a>>::empty()) =~= Seq::<u8>::empty());
            assert(orig.take(orig.len() as int) + orig.skip(orig.len() as int) =~= orig);
        }
        while items.len() > 0
            invariant
                items@ == orig.take(items@.len() as int),
                items@.len() <= orig.len(),
                out@ == flat_text(orig.skip(items@.len() as int)),
                out@.len() <= flat_text(orig).len(),
                flat_text(orig).len() <= usize::MAX,
            decreases items@.len(),
        {
            let k = items.len();
            let d = items.pop().unwrap();
            proof {
                assert(d == orig[k - 1]);
                lemma_flat_text_push_front(orig.skip(k as int), d);
                assert(seq![d] + orig.skip(k as int) =~= orig.skip(k - 1));
                lemma_flat_text_suffix(orig, k - 1);
                assert(items@ =~= orig.take(k - 1));
            }
            out.push_front(d);
        }
        proof {
            assert(orig.skip(0) =~= orig);
        }
        out
    }

    /// Append text to the queue.
    pub fn push_back(&mut self, data: StringData<'a>)
        requires
            old(self)@.len() + data@.len() <= usize::MAX,
        ensures
            final(self)@ == old(self)@ + data@,
            final(self).spec_chunks().len() <= old(self).spec_chunks().len() + 1,
            forall|i: int|
                0 <= i < old(self).spec_chunks().len() ==> #[trigger] final(self).spec_chunks()[i]
                    == old(self).spec_chunks()[i],
            data.spec_is_owned_or_static() ==> forall|i: int|
                old(self).spec_chunks().len() <= i < final(self).spec_chunks().len()
                    ==> #[trigger] final(self).spec_chunks()[i].spec_is_owned_or_static(),
    {
        proof {
            use_type_invariant(&*self);
        }
        data.check_valid();
        let mut taken = StringQueue::new();
        core::mem::swap(self, &mut taken);
        let mut q = taken.queue;
        q.push_back(data.into_bytedata());
        *self = StringQueue { queue: q };
    }

    /// Prepend text into the queue.
    pub fn push_front(&mut self, data: StringData<'a>)
        requires
            old(self)@.len() + data@.len() <= usize::MAX,
        ensures
            final(self)@ == data@ + old(self)@,
    {
        proof {
            use_type_invariant(&*self);
        }
        data.check_valid();
        let mut taken = StringQueue::new();
        core::mem::swap(self, &mut taken);
        let mut q = taken.queue;
        let ghost before = q.spec_chunks();
        q.push_front(data.into_bytedata());
        proof {
            assert forall|i: int| 0 <= i < q.spec_chunks().len() implies valid_utf8(
                #[trigger] q.spec_chunks()[i]@,
            ) by {
                if q.spec_chunks().len() > before.len() && i > 0 {
                    assert(q.spec_chunks()[i] == before[i - 1]);
                } else if q.spec_chunks().len() == before.len() {
                    assert(q.spec_chunks()[i] == before[i]);
                }
            }
        }
        *self = StringQueue { queue: q };
    }

    /// Pop the first chunk from the queue.
    pub fn pop_front(&mut self) -> (res: Option<StringData<'a>>)
        ensures
            old(self)@.len() == 0 <==> res is None,
            res is None ==> final(self)@ == old(self)@ && final(self).spec_chunks() == old(
                self,
            ).spec_chunks(),
            res matches Some(d) ==> old(self)@ == d@ + final(self)@ && d@.len() > 0,
            res matches Some(d) ==> d@ == old(self).spec_chunks()[0]@ && final(self).spec_chunks()
                == old(self).spec_chunks().drop_first(),
    {
        proof {
            use_type_invariant(&*self);
        }
        let mut taken = StringQueue::new();
        core::mem::swap(self, &mut taken);
        let mut q = taken.queue;
        let ghost before = q.spec_chunks();
        let r = q.pop_front();
        proof {
            assert forall|i: int| 0 <= i < q.spec_chunks().len() implies valid_utf8(
                #[trigger] q.spec_chunks()[i]@,
            ) by {
                assert(q.spec_chunks()[i] == before[i + 1]);
            }
        }
        *self = StringQueue { queue: q };
        match r {
            None => None,
            Some(d) => Some(StringData::from_bytedata_unchecked(d)),
        }
    }

    /// Pop the last chunk from the queue.
    pub fn pop_back(&mut self) -> (res: Option<StringData<'a>>)
        ensures
            old(self)@.len() == 0 <==> res is None,
            res is None ==> final(self)@ == old(self)@ && final(self).spec_chunks() == old(
                self,
            ).spec_chunks(),
            res matches Some(d) ==> old(self)@ == final(self)@ + d@ && d@.len() > 0,
            res matches Some(d) ==> d@ == old(self).spec_chunks().last()@
                && final(self).spec_chunks() == old(self).spec_chunks().drop_last(),
    {
        proof {
            use_type_invariant(&*self);
        }
        let mut taken = StringQueue::new();
        core::mem::swap(self, &mut taken);
        let mut q = taken.queue;
        let ghost before = q.spec_chunks();
        let r = q.pop_back();
        proof {
            assert forall|i: int| 0 <= i < q.spec_chunks().len() implies valid_utf8(
                #[trigger] q.spec_chunks()[i]@,
            ) by {
                assert(q.spec_chunks()[i] == before[i]);
            }
        }
        *self = StringQueue { queue: q };
        match r {
            None => None,
            Some(d) => Some(StringData::from_bytedata_unchecked(d)),
        }
    }

    /// A copy of the first chunk in the queue.
    pub fn front(&self) -> (res: Option<StringData<'a>>)
        ensures
            self.spec_chunks().len() == 0 ==> res is None,
            self.spec_chunks().len() > 0 ==> (res matches Some(d) && d@
                == self.spec_chunks()[0]@),
    {
        proof {
            use_type_invariant(self);
        }
        match self.queue.front() {
            None => None,
            Some(d) => Some(StringData::from_bytedata_unchecked(d.clone())),
        }
    }

    /// A copy of the last chunk in the queue.
    pub fn back(&self) -> (res: Option<StringData<'a>>)
        ensures
            self.spec_chunks().len() == 0 ==> res is None,
            self.spec_chunks().len() > 0 ==> (res matches Some(d) && d@
                == self.spec_chunks().last()@),
    {
        proof {
            use_type_invariant(self);
        }
        match self.queue.back() {
            None => None,
            Some(d) => Some(StringData::from_bytedata_unchecked(d.clone())),
        }
    }

    /// Check if there are no bytes in the queue.
    pub fn is_empty(&self) -> (res: bool)
        ensures
            res == (self@.len() == 0),
    {
        self.queue.is_empty()
    }

    /// The amount of bytes in the queue.
    pub fn len(&self) -> (res: usize)
        ensures
            res == self@.len(),
    {
        self.queue.len()
    }

    /// The amount of chunks in the queue.
    pub fn chunk_len(&self) -> (res: usize)
        ensures
            res == self.spec_chunks().len(),
    {
        self.queue.chunk_len()
    }

    /// Check if the queue starts with a certain str.
    pub fn starts_with(&self, data: &str) -> (res: bool)
        ensures
            res == data.spec_bytes().is_prefix_of(self@),
    {
        self.queue.starts_with(data.as_bytes())
    }

    /// Check if the queue ends with a certain str.
    pub fn ends_with(&self, data: &str) -> (res: bool)
        ensures
            res == data.spec_bytes().is_suffix_of(self@),
    {
        self.queue.ends_with(data.as_bytes())
    }

    /// Hands out the chunks of the queue as text.
    pub fn into_iter(self) -> (res: StrChunkIter<'a>)
        ensures
            res@ == self@,
            res.spec_chunks() == self.spec_chunks(),
    {
        StrChunkIter { queue: self }
    }

    /// A copy of the text; every chunk is shared, not copied.
    pub fn duplicate(&self) -> (res: Self)
        ensures
            res@ == self@,
    {
        proof {
            use_type_invariant(self);
        }
        self.check_valid();
        self.queue.check_well_formed();
        let n = self.queue.chunk_len();
        let mut out = StringQueue::new();
        let mut i: usize = 0;
        while i < n
            invariant
                n == self.spec_chunks().len(),
                i <= n,
                out@ == flat(self.spec_chunks().take(i as int)),
                chunks_valid(self.spec_chunks()),
                flat(self.spec_chunks()).len() <= usize::MAX,
                self.queue@ == flat(self.spec_chunks()),
            decreases n - i,
        {
            proof {
                super::byte_queue::lemma_flat_take(self.spec_chunks(), i as int);
                super::byte_queue::lemma_chunk_in_flat(self.spec_chunks(), i as int);
            }
            let c = self.queue.chunk_at(i).clone();
            out.push_back(StringData::from_bytedata_unchecked(c));
            i += 1;
        }
        proof {
            assert(self.spec_chunks().take(n as int) =~= self.spec_chunks());
        }
        out
    }

    /// Split the queue at a byte position, which must be a character boundary.
    /// `self` keeps the beginning `[0, at)`, and the returned queue holds the end `[at, len)`.
    pub fn split_off(&mut self, at: usize) -> (res: Self)
        requires
            is_boundary(old(self)@, at as int),
        ensures
            final(self)@ == old(self)@.take(at as int),
            res@ == old(self)@.skip(at as int),
    {
        let ghost orig = self@;
        self.check_valid();
        let mut out = Self::new();
        if at == 0 {
            core::mem::swap(self, &mut out);
            proof {
                assert(orig.skip(0) =~= orig);
                assert(orig.take(0) =~= Seq::<u8>::empty());
            }
            return out;
        }
        let mut remain = self.len() - at;
        proof {
            assert(orig.skip(orig.len() as int) =~= Seq::<u8>::empty());
            assert(self@ + out@ =~= orig);
        }
        while remain > 0
            invariant
                orig.len() <= usize::MAX,
                self@ + out@ == orig,
                self@.len() == at + remain,
                is_boundary(orig, at as int),
                at <= orig.len(),
            decreases remain,
        {
            let ghost before = self@;
            match self.pop_back() {
                None => {
                    proof {
                        assert(false);
                    }
                    return out;
                },
                Some(a) => {
                    let l = a.len();
                    if l > remain {
                        let k = l - remain;
                        proof {
                            assert(before == self@ + a@);
                            assert(a@[k as int] == orig[at as int]);
                        }
                        let (x, y) = a.split_at(k);
                        proof {
                            assert(x@ + y@ =~= a@);
                        }
                        self.push_back(x);
                        out.push_front(y);
                        proof {
                            assert(self@ + out@ =~= orig);
                        }
                        remain = 0;
                    } else {
                        out.push_front(a);
                        proof {
                            assert(self@ + out@ =~= orig);
                        }
                        remain -= l;
                    }
                },
            }
        }
        proof {
            assert(self@ =~= orig.take(at as int));
            assert(out@ =~= orig.skip(at as int));
        }
        out
    }

    /// Slices the queue and returns a new queue that represents the given range,
    /// whose ends must be character boundaries.
    pub fn slice(&self, range: core::ops::Range<usize>) -> (res: Self)
        requires
            range.start <= range.end,
            is_boundary(self@, range.start as int),
            is_boundary(self@, range.end as int),
        ensures
            res@ == self@.subrange(range.start as int, range.end as int),
    {
        let mut c = self.duplicate();
        let _tail = c.split_off(range.end);
        proof {
            assert(c@ =~= self@.take(range.end as int));
            if range.start < range.end {
                assert(c@[range.start as int] == self@[range.start as int]);
            }
        }
        let res = c.split_off(range.start);
        proof {
            assert(res@ =~= self@.subrange(range.start as int, range.end as int));
        }
        res
    }

    /// Iterates over each character in the queue.
    pub fn chars(&self) -> (res: CharIter<'a, '_>)
        ensures
            res.spec_chars() == self.spec_chars(),
    {
        self.check_valid();
        CharIter::new(&self.queue)
    }

    /// Iterates over each character in the queue, consuming it.
    pub fn into_chars(self) -> (res: OwnedCharIter<'a>)
        ensures
            res.spec_chars() == self.spec_chars(),
    {
        self.check_valid();
        let StringQueue { queue } = self;
        OwnedCharIter::new(queue)
    }

    /// Iterates over each character in the queue with its byte position.
    pub fn chars_indecies(&self) -> (res: CharIndecies<'a, '_>)
        ensures
            res.spec_chars() == self.spec_chars(),
            res.spec_pos() == 0,
            res.spec_text() == self@,
    {
        self.check_valid();
        CharIndecies::new(&self.queue)
    }

    /// Iterates over each byte in the queue.
    pub fn bytes(&self) -> (res: super::byte_iter::ByteIter<'a, '_>)
        ensures
            res@ == self@,
    {
        self.queue.bytes()
    }

    /// Iterates over each byte in the queue, consuming it.
    pub fn into_bytes(self) -> (res: super::byte_iter::OwnedByteIter<'a>)
        ensures
            res@ == self@,
    {
        self.into_bytequeue().into_bytes()
    }

    /// Iterates over each chunk of text in the queue.
    pub fn chunks(&self) -> (res: LinkedStrIter<'a, '_>)
        ensures
            res.spec_remaining() == self.spec_chunks(),
    {
        let res = LinkedStrIter { queue: self, index: 0 };
        proof {
            assert(self.spec_chunks().skip(0) =~= self.spec_chunks());
        }
        res
    }

    /// Iterates over each chunk of bytes in the queue.
    pub fn byte_chunks(&self) -> (res: super::linked_iter::LinkedIter<'a, '_>)
        ensures
            res.spec_remaining() == self.spec_chunks(),
    {
        self.queue.chunks()
    }

    /// Splits the queue on a str, which must not be empty.
    pub fn split_on<'b>(&'b self, needle: &'b str) -> (res: SplitOnStr<'a, 'b>)
        requires
            needle.spec_bytes().len() > 0,
        ensures
            res.spec_pos() == 0,
            res.spec_needle() == needle.spec_bytes(),
            res.spec_max() == 0,
            res.spec_done() == (self@.len() == 0),
            res.spec_text() == self@,
    {
        SplitOnStr::new(self, needle, 0)
    }

    /// Splits the queue on a str, which must not be empty, into at most `max`
    /// parts; zero means no limit.
    pub fn splitn_on<'b>(&'b self, needle: &'b str, max: usize) -> (res: SplitOnStr<'a, 'b>)
        requires
            needle.spec_bytes().len() > 0,
        ensures
            res.spec_pos() == 0,
            res.spec_needle() == needle.spec_bytes(),
            res.spec_max() == max,
            res.spec_done() == (self@.len() == 0),
            res.spec_text() == self@,
    {
        SplitOnStr::new(self, needle, max)
    }

    /// Splits the queue on a byte sequence, which must not be empty.
    pub fn split_on_bytes<'b>(&'b self, needle: &'b [u8]) -> (res: super::split::SplitOn<'a, 'b>)
        requires
            needle@.len() > 0,
        ensures
            res.spec_rest() == self@,
            res.spec_needle() == needle@,
            res.spec_max() == 0,
    {
        self.queue.split_on(needle)
    }

    /// Splits the queue on a byte sequence, which must not be empty, into at most
    /// `max` parts; zero means no limit.
    pub fn splitn_on_bytes<'b>(&'b self, needle: &'b [u8], max: usize) -> (res: super::split::SplitOn<
        'a,
        'b,
    >)
        requires
            needle@.len() > 0,
        ensures
            res.spec_rest() == self@,
            res.spec_needle() == needle@,
            res.spec_max() == max,
    {
        self.queue.splitn_on(needle, max)
    }

    /// Append another `StringQueue` to the end of this one.
    pub fn append(&mut self, other: Self)
        requires
            old(self)@.len() + other@.len() <= usize::MAX,
        ensures
            final(self)@ == old(self)@ + other@,
    {
        let ghost orig = self@;
        let ghost oth = other@;
        let mut rest = other;
        loop
            invariant
                self@ + rest@ == orig + oth,
                (orig + oth).len() <= usize::MAX,
            ensures
                self@ == orig + oth,
            decreases rest@.len(),
        {
            let ghost before_self = self@;
            let ghost before_rest = rest@;
            match rest.pop_front() {
                None => {
                    proof {
                        assert(rest@ =~= Seq::<u8>::empty());
                        assert(self@ + rest@ =~= self@);
                    }
                    break;
                },
                Some(d) => {
                    proof {
                        assert(self@ + d@ + rest@ =~= before_self + before_rest);
                    }
                    self.push_back(d);
                    proof {
                        assert(self@ + rest@ =~= orig + oth);
                    }
                },
            }
        }
    }

    /// Checks a range whose ends must be character boundaries, giving its start and end.
    fn check_range(&self, range: core::ops::Range<usize>) -> (res: (usize, usize))
        requires
            range.start <= range.end,
            is_boundary(self@, range.start as int),
            is_boundary(self@, range.end as int),
        ensures
            res == (range.start, range.end),
    {
        self.queue.check_range(range)
    }

    /// Removes a range, whose ends must be character boundaries, handing out its characters.
    pub fn drain(&mut self, range: core::ops::Range<usize>) -> (res: DrainChars<'a>)
        requires
            range.start <= range.end,
            is_boundary(old(self)@, range.start as int),
            is_boundary(old(self)@, range.end as int),
        ensures
            res.spec_chars() == decode_utf8(old(self)@.subrange(range.start as int, range.end as int)),
            final(self)@ == old(self)@.take(range.start as int) + old(self)@.skip(range.end as int),
    {
        let ghost orig = self@;
        self.check_valid();
        let (start, end) = self.check_range(range);
        let tail = self.split_off(end);
        proof {
            assert(self@ =~= orig.take(end as int));
            if start < end {
                assert(self@[start as int] == orig[start as int]);
            }
        }
        let mid = self.split_off(start);
        self.append(tail);
        mid.check_valid();
        proof {
            assert(mid@ =~= orig.subrange(start as int, end as int));
        }
        DrainChars::new(mid.into_bytequeue())
    }

    /// Find the byte position of the first character that meets `fun`.
    pub fn find_char<F: Fn(char) -> bool>(&self, fun: F) -> (res: Option<usize>)
        requires
            forall|c: char| fun.requires((c,)),
        ensures
            res matches Some(p) ==> {
                &&& is_boundary(self@, p as int)
                &&& (p as int) < self@.len()
                &&& all_chars(fun, decode_utf8(self@.take(p as int)), false)
                &&& fun.ensures((decode_utf8(self@.skip(p as int))[0],), true)
            },
            res is None ==> all_chars(fun, self.spec_chars(), false),
    {
        self.find_char_where(&fun, true)
    }

    /// Find the byte position of the first character for which `fun` gives `want`.
    fn find_char_where<F: Fn(char) -> bool>(&self, fun: &F, want: bool) -> (res: Option<usize>)
        requires
            forall|c: char| fun.requires((c,)),
        ensures
            res matches Some(p) ==> {
                &&& is_boundary(self@, p as int)
                &&& (p as int) < self@.len()
                &&& all_chars(*fun, decode_utf8(self@.take(p as int)), !want)
                &&& fun.ensures((decode_utf8(self@.skip(p as int))[0],), want)
            },
            res is None ==> all_chars(*fun, self.spec_chars(), !want),
    {
        self.check_valid();
        let mut it = self.chars_indecies();
        let ghost text = self@;
        proof {
            assert(text.take(0) =~= Seq::<u8>::empty());
            assert(decode_utf8(Seq::<u8>::empty()) =~= Seq::<char>::empty());
            assert(text.skip(0) =~= text);
        }
        loop
            invariant
                it.spec_text() == text,
                text == self@,
                text.len() <= usize::MAX,
                valid_utf8(text),
                forall|c: char| fun.requires((c,)),
                0 <= it.spec_pos() <= text.len(),
                is_boundary(text, it.spec_pos()),
                it.spec_chars() == decode_utf8(text.skip(it.spec_pos())),
                decode_utf8(text) == decode_utf8(text.take(it.spec_pos())) + it.spec_chars(),
                all_chars(*fun, decode_utf8(text.take(it.spec_pos())), !want),
            decreases text.len() - it.spec_pos(),
        {
            let ghost p0 = it.spec_pos();
            let ghost chars0 = it.spec_chars();
            proof {
                if p0 < text.len() {
                    lemma_valid_subrange(text, p0, text.len() as int);
                    assert(text.subrange(p0, text.len() as int) =~= text.skip(p0));
                }
            }
            match it.next() {
                None => {
                    proof {
                        assert(chars0.len() == 0);
                        assert(decode_utf8(text) =~= decode_utf8(text.take(p0)));
                    }
                    return None;
                },
                Some((pos, ch)) => {
                    proof {
                        if p0 == text.len() {
                            assert(text.skip(p0) =~= Seq::<u8>::empty());
                            assert(decode_utf8(Seq::<u8>::empty()) =~= Seq::<char>::empty());
                        }
                        lemma_char_step(text, p0);
                    }
                    let r = fun(ch);
                    if r == want {
                        proof {
                            assert(pos == p0);
                            assert(ch == decode_utf8(text.skip(p0))[0]);
                            assert(fun.ensures((ch,), want));
                        }
                        return Some(pos);
                    }
                    proof {
                        let w = length_of_first_scalar(text.skip(p0));
                        assert(decode_utf8(text.take(p0 + w)) =~= decode_utf8(text.take(p0)).push(
                            ch,
                        ));
                        assert(decode_utf8(text) =~= decode_utf8(text.take(p0 + w))
                            + it.spec_chars());
                    }
                },
            }
        }
    }

    /// Move data to the returned `StringQueue` while the char predicate holds.
    pub fn take_while<F: Fn(char) -> bool>(&mut self, fun: F) -> (res: Self)
        requires
            forall|c: char| fun.requires((c,)),
        ensures
            res@ + final(self)@ == old(self)@,
            all_chars(fun, res.spec_chars(), true),
            final(self)@.len() > 0 ==> fun.ensures((final(self).spec_chars()[0],), false),
    {
        let ghost orig = self@;
        self.check_valid();
        match self.find_char_where(&fun, false) {
            None => {
                let mut res = Self::new();
                core::mem::swap(self, &mut res);
                proof {
                    assert(res@ + self@ =~= orig);
                }
                res
            },
            Some(position) => {
                let rest = self.split_off(position);
                let mut res = rest;
                core::mem::swap(self, &mut res);
                proof {
                    assert(res@ + self@ =~= orig);
                    assert(res@ =~= orig.take(position as int));
                }
                res
            },
        }
    }

    /// Takes and removes the first line from the queue.
    /// If a newline (`'\n'`) is found, the returned queue will contain all data
    /// up to, and including, the newline. Otherwise it holds all the data.
    pub fn take_line(&mut self) -> (res: Self)
        ensures
            res@ + final(self)@ == old(self)@,
            res@.len() > 0 ==> !res@.take(res@.len() - 1).contains(10u8),
            final(self)@.len() > 0 ==> res@.len() > 0 && res@.last() == 10u8,
            !old(self)@.contains(10u8) ==> final(self)@.len() == 0,
    {
        let ghost orig = self@;
        self.check_valid();
        match self.queue.find_byte(|b: u8| -> (r: bool) ensures r == (b == 10u8) { b == 10u8 }) {
            None => {
                let mut res = Self::new();
                core::mem::swap(self, &mut res);
                proof {
                    assert(res@ + self@ =~= orig);
                    if res@.len() > 0 {
                        let t = res@.take(res@.len() - 1);
                        if t.contains(10u8) {
                            let k = choose|k: int| 0 <= k < t.len() && #[trigger] t[k] == 10u8;
                            assert(orig[k] == 10u8);
                        }
                    }
                    if orig.contains(10u8) {
                        let k = choose|k: int| 0 <= k < orig.len() && #[trigger] orig[k] == 10u8;
                        assert(orig[k] != 10u8);
                    }
                }
                res
            },
            Some(position) => {
                proof {
                    if position + 1 < orig.len() {
                        crate::slices::lemma_utf8_after_ascii(orig, position as int);
                    }
                }
                let rest = self.split_off(position + 1);
                let mut res = rest;
                core::mem::swap(self, &mut res);
                proof {
                    assert(res@ + self@ =~= orig);
                    assert(res@ =~= orig.take(position + 1));
                    let t = res@.take(res@.len() - 1);
                    if t.contains(10u8) {
                        let k = choose|k: int| 0 <= k < t.len() && #[trigger] t[k] == 10u8;
                        assert(orig[k] == 10u8);
                    }
                }
                res
            },
        }
    }

    /// Replace a range, whose ends must be character boundaries, with new text.
    pub fn replace_range(&mut self, range: core::ops::Range<usize>, replace_with: StringData<'a>)
        requires
            range.start <= range.end,
            is_boundary(old(self)@, range.start as int),
            is_boundary(old(self)@, range.end as int),
            old(self)@.len() + replace_with@.len() <= usize::MAX,
        ensures
            final(self)@ == old(self)@.take(range.start as int) + replace_with@ + old(self)@.skip(
                range.end as int,
            ),
    {
        let ghost orig = self@;
        self.check_valid();
        let (start, end) = self.check_range(range);
        let tail = self.split_off(end);
        proof {
            assert(self@ =~= orig.take(end as int));
            if start < end {
                assert(self@[start as int] == orig[start as int]);
            }
        }
        let _removed = self.split_off(start);
        self.push_back(replace_with);
        self.append(tail);
        proof {
            assert(self@ =~= orig.take(start as int) + replace_with@ + orig.skip(end as int));
        }
    }
}

/// One character step through valid UTF-8 text.
proof fn lemma_char_step(text: Seq<u8>, p: int)
    requires
        valid_utf8(text),
        0 <= p < text.len(),
        is_boundary(text, p),
        valid_utf8(text.skip(p)),
    ensures
        is_boundary(text, p + length_of_first_scalar(text.skip(p))),
        p + length_of_first_scalar(text.skip(p)) <= text.len(),
        decode_utf8(text.take(p + length_of_first_scalar(text.skip(p)))) == decode_utf8(
            text.take(p),
        ).push(decode_utf8(text.skip(p))[0]),
        decode_utf8(text.skip(p)).drop_first() == decode_utf8(
            text.skip(p + length_of_first_scalar(text.skip(p))),
        ),
{
    let d = text.skip(p);
    let w = length_of_first_scalar(d);
    lemma_first_scalar_alone(d);
    crate::char_indices::lemma_valid_decodes(d);
    lemma_valid_subrange(text, 0, p);
    assert(text.take(p) =~= text.subrange(0, p));
    lemma_decode_concat(text.take(p), d.take(w));
    assert(text.take(p) + d.take(w) =~= text.take(p + w));
    assert(text.skip(p + w) =~= d.skip(w));
    if p + w < text.len() {
        crate::slices::lemma_utf8_first_not_continuation(d.skip(w));
        assert(text[p + w] == d.skip(w)[0]);
    }
    assert(decode_utf8(d).drop_first() =~= decode_utf8(d.skip(w)));
}

/// An iterator over the chunks of a [`StringQueue`] as text.
pub struct StrChunkIter<'a> {
    queue: StringQueue<'a>,
}

impl<'a> View for StrChunkIter<'a> {
    type V = Seq<u8>;

    closed spec fn view(&self) -> Seq<u8> {
        self.queue@
    }
}

impl<'a> StrChunkIter<'a> {
    /// The chunks not yet handed out.
    pub closed spec fn spec_chunks(&self) -> Seq<ByteData<'a>> {
        self.queue.spec_chunks()
    }

    /// The next chunk from the front: the whole first chunk.
    pub fn next(&mut self) -> (res: Option<StringData<'a>>)
        ensures
            old(self)@.len() == 0 <==> res is None,
            res matches Some(d) ==> old(self)@ == d@ + final(self)@,
            res matches Some(d) ==> d@ == old(self).spec_chunks()[0]@ && final(self).spec_chunks()
                == old(self).spec_chunks().drop_first(),
    {
        self.queue.pop_front()
    }

    /// The next chunk from the back: the whole last chunk.
    pub fn next_back(&mut self) -> (res: Option<StringData<'a>>)
        ensures
            old(self)@.len() == 0 <==> res is None,
            res matches Some(d) ==> old(self)@ == final(self)@ + d@,
            res matches Some(d) ==> d@ == old(self).spec_chunks().last()@
                && final(self).spec_chunks() == old(self).spec_chunks().drop_last(),
    {
        self.queue.pop_back()
    }
}

/// An iterator over the text chunks of a [`StringQueue`].
pub struct LinkedStrIter<'a, 'b> {
    queue: &'b StringQueue<'a>,
    index: usize,
}

impl<'a, 'b> LinkedStrIter<'a, 'b> {
    #[verifier::type_invariant]
    spec fn inv(self) -> bool {
        self.index <= self.queue.spec_chunks().len()
    }

    /// The chunks not yet visited.
    pub closed spec fn spec_remaining(&self) -> Seq<ByteData<'a>> {
        self.queue.spec_chunks().skip(self.index as int)
    }

    /// The next chunk of text.
    pub fn next(&mut self) -> (res: Option<StringData<'a>>)
        ensures
            old(self).spec_remaining().len() == 0 ==> res is None && final(self).spec_remaining()
                == old(self).spec_remaining(),
            old(self).spec_remaining().len() > 0 ==> (res matches Some(s) && s@ == old(
                self,
            ).spec_remaining()[0]@) && final(self).spec_remaining() == old(
                self,
            ).spec_remaining().drop_first(),
    {
        proof {
            use_type_invariant(&*self);
        }
        let q = self.queue;
        proof {
            use_type_invariant(q);
        }
        let n = q.queue.chunk_len();
        if self.index >= n {
            return None;
        }
        let i = self.index;
        let chunk = q.queue.chunk_at(i).clone();
        *self = LinkedStrIter { queue: q, index: i + 1 };
        proof {
            assert(q.spec_chunks().skip(i as int).drop_first() =~= q.spec_chunks().skip(i + 1));
            assert(valid_utf8(q.spec_chunks()[i as int]@));
        }
        Some(StringData::from_bytedata_unchecked(chunk))
    }

    /// The number of chunks not yet visited.
    pub fn len(&self) -> (res: usize)
        ensures
            res == self.spec_remaining().len(),
    {
        proof {
            use_type_invariant(self);
        }
        self.queue.queue.chunk_len() - self.index
    }
}

/// An iterator over the parts of a [`StringQueue`] separated by a str.
pub struct SplitOnStr<'a, 'b> {
    queue: &'b StringQueue<'a>,
    needle: &'b str,
    pos: usize,
    max: usize,
    done: bool,
}

impl<'a, 'b> SplitOnStr<'a, 'b> {
    #[verifier::type_invariant]
    spec fn inv(self) -> bool {
        &&& self.pos <= self.queue@.len()
        &&& is_boundary(self.queue@, self.pos as int)
        &&& self.needle.spec_bytes().len() > 0
    }

    /// The whole text being split.
    pub closed spec fn spec_text(&self) -> Seq<u8> {
        self.queue@
    }

    /// Where the next part starts.
    pub closed spec fn spec_pos(&self) -> int {
        self.pos as int
    }

    /// The separator.
    pub closed spec fn spec_needle(&self) -> Seq<u8> {
        self.needle.spec_bytes()
    }

    /// How many parts may still be handed out; zero means no limit.
    pub closed spec fn spec_max(&self) -> int {
        self.max as int
    }

    /// No part is left.
    pub closed spec fn spec_done(&self) -> bool {
        self.done
    }

    fn new(queue: &'b StringQueue<'a>, needle: &'b str, max: usize) -> (res: Self)
        requires
            needle.spec_bytes().len() > 0,
        ensures
            res.spec_pos() == 0,
            res.spec_needle() == needle.spec_bytes(),
            res.spec_max() == max,
            res.spec_done() == (queue@.len() == 0),
            res.spec_text() == queue@,
    {
        let done = queue.is_empty();
        queue.check_valid();
        proof {
            if queue@.len() > 0 {
                crate::slices::lemma_utf8_first_not_continuation(queue@);
            }
        }
        SplitOnStr { queue, needle, pos: 0, max, done }
    }

    /// The next part: the text up to the next separator, which is skipped; the
    /// rest where no separator follows or where the last allowed part is reached;
    /// an empty part where the text ends right after a separator.
    pub fn next(&mut self) -> (res: Option<StringQueue<'a>>)
        ensures
            final(self).spec_text() == old(self).spec_text(),
            final(self).spec_needle() == old(self).spec_needle(),
            old(self).spec_done() ==> res is None,
            !old(self).spec_done() && old(self).spec_pos() == old(self).spec_text().len() ==> {
                &&& res matches Some(p) && p@ == Seq::<u8>::empty()
                &&& final(self).spec_done()
            },
            !old(self).spec_done() && old(self).spec_pos() < old(self).spec_text().len()
                && old(self).spec_max() == 1 ==> {
                &&& res matches Some(p) && p@ == old(self).spec_text().skip(old(self).spec_pos())
                &&& final(self).spec_done()
            },
            !old(self).spec_done() && old(self).spec_pos() < old(self).spec_text().len()
                && old(self).spec_max() != 1 && never_occurs_from(
                old(self).spec_text(),
                old(self).spec_needle(),
                old(self).spec_pos(),
            ) ==> {
                &&& res matches Some(p) && p@ == old(self).spec_text().skip(old(self).spec_pos())
                &&& final(self).spec_done()
            },
            forall|p: int|
                !old(self).spec_done() && old(self).spec_pos() < old(self).spec_text().len()
                    && old(self).spec_max() != 1 && first_occurrence_from(
                    old(self).spec_text(),
                    old(self).spec_needle(),
                    old(self).spec_pos(),
                    p,
                ) ==> {
                    &&& res matches Some(part) && part@ == old(self).spec_text().subrange(
                        old(self).spec_pos(),
                        p,
                    )
                    &&& final(self).spec_pos() == p + old(self).spec_needle().len()
                    &&& !final(self).spec_done()
                },
    {
        proof {
            use_type_invariant(&*self);
        }
        self.queue.check_valid();
        if self.done {
            return None;
        }
        let len = self.queue.len();
        if self.pos == len {
            self.done = true;
            return Some(StringQueue::new());
        }
        if self.max == 1 {
            self.done = true;
            let part = self.queue.slice(self.pos..len);
            proof {
                assert(self.queue@.subrange(self.pos as int, len as int) =~= self.queue@.skip(
                    self.pos as int,
                ));
            }
            return Some(part);
        }
        let needle = self.needle;
        let nb = needle.as_bytes();
        match self.queue.as_bytequeue().find_slice_after(nb, self.pos) {
            Some(p) => {
                let text = self.queue;
                proof {
                    let t = text@;
                    let n = needle.spec_bytes();
                    encode_utf8_valid_utf8(needle@);
                    crate::slices::lemma_utf8_first_not_continuation(n);
                    assert(t[p as int] == t.subrange(p as int, p + n.len())[0]);
                    lemma_after_needle(t, n, p as int);
                    crate::slices::lemma_first_occurrence_from_unique(t, n, p as int);
                }
                let part = text.slice(self.pos..p);
                let max = if self.max != 0 {
                    self.max - 1
                } else {
                    0
                };
                *self = SplitOnStr { queue: text, needle, pos: p + nb.len(), max, done: false };
                Some(part)
            },
            None => {
                self.done = true;
                let part = self.queue.slice(self.pos..len);
                proof {
                    assert(self.queue@.subrange(self.pos as int, len as int) =~= self.queue@.skip(
                        self.pos as int,
                    ));
                }
                Some(part)
            },
        }
    }
}

/// In valid text, the end of an occurrence of valid UTF-8 that starts at a
/// character boundary is a character boundary.
proof fn lemma_after_needle(t: Seq<u8>, n: Seq<u8>, p: int)
    requires
        valid_utf8(t),
        valid_utf8(n),
        n.len() > 0,
        0 <= p,
        p + n.len() <= t.len(),
        t.subrange(p, p + n.len()) == n,
    ensures
        is_boundary(t, p + n.len()),
{
    crate::slices::lemma_utf8_first_not_continuation(n);
    assert(t[p] == n[0]);
    lemma_valid_subrange(t, p, t.len() as int);
    let s = t.subrange(p, t.len() as int);
    let rest = t.subrange(p + n.len(), t.len() as int);
    assert(s =~= n + rest);
    lemma_valid_rest(n, rest);
    if rest.len() > 0 {
        crate::slices::lemma_utf8_first_not_continuation(rest);
        assert(t[p + n.len()] == rest[0]);
    }
}

impl<'a> PartialEq for StringQueue<'a> {
    fn eq(&self, other: &Self) -> (res: bool) {
        self.queue.eq(&other.queue)
    }
}

impl<'a> vstd::std_specs::cmp::PartialEqSpecImpl for StringQueue<'a> {
    open spec fn obeys_eq_spec() -> bool {
        true
    }

    open spec fn eq_spec(&self, other: &Self) -> bool {
        self@ == other@
    }
}

impl<'a> Eq for StringQueue<'a> {

}

impl<'a> Clone for StringQueue<'a> {
    fn clone(&self) -> (res: Self)
        ensures
            res@ == self@,
    {
        self.duplicate()
    }
}

impl<'a> Default for StringQueue<'a> {
    fn default() -> (res: Self)
        ensures
            res@ == Seq::<u8>::empty(),
    {
        Self::new()
    }
}

impl<'a> From<StringData<'a>> for StringQueue<'a> {
    fn from(data: StringData<'a>) -> (res: Self)
        ensures
            res@ == data@,
    {
        Self::with_item(data)
    }
}

impl<'a> vstd::std_specs::convert::FromSpecImpl<StringData<'a>> for StringQueue<'a> {
    open spec fn obeys_from_spec() -> bool {
        false
    }

    open spec fn from_spec(v: StringData<'a>) -> Self {
        vstd::pervasive::arbitrary()
    }
}

impl<'a> From<&'a str> for StringQueue<'a> {
    fn from(data: &'a str) -> (res: Self)
        ensures
            res@ == data.spec_bytes(),
    {
        Self::with_item(StringData::from_borrowed(data))
    }
}

impl<'a> vstd::std_specs::convert::FromSpecImpl<&'a str> for StringQueue<'a> {
    open spec fn obeys_from_spec() -> bool {
        false
    }

    open spec fn from_spec(v: &'a str) -> Self {
        vstd::pervasive::arbitrary()
    }
}

impl<'a> From<String> for StringQueue<'a> {
    fn from(data: String) -> (res: Self)
        ensures
            res@ == crate::stringdata::string_bytes(&data),
    {
        Self::with_item(StringData::from_owned(data))
    }
}

impl<'a> vstd::std_specs::convert::FromSpecImpl<String> for StringQueue<'a> {
    open spec fn obeys_from_spec() -> bool {
        false
    }

    open spec fn from_spec(v: String) -> Self {
        vstd::pervasive::arbitrary()
    }
}

/// No non-empty prefix of the bytes is valid UTF-8.
pub open spec fn no_valid_prefix(y: Seq<u8>) -> bool {
    forall|j: int| 0 < j <= y.len() ==> !valid_utf8(#[trigger] y.take(j))
}

/// The first character of valid UTF-8: its length is the width that its
/// leading byte announces, and its bytes are valid on their own.
proof fn lemma_first_char(z: Seq<u8>)
    requires
        valid_utf8(z),
        z.len() > 0,
    ensures
        1 <= length_of_first_scalar(z) <= z.len(),
        lead_width(z[0]) == length_of_first_scalar(z),
        valid_utf8(z.take(length_of_first_scalar(z))),
{
    crate::char_indices::lemma_valid_decodes(z);
    lemma_first_scalar_alone(z);
}

/// After the longest valid prefix `c[..v]` of a checked run of bytes, nothing
/// valid can start, whatever bytes `t` follow the run, in each of three cases:
/// the check said no bytes can complete what follows (`mode` 0); what follows
/// does not start a character of two or more bytes (`mode` 1); it starts one
/// that the run holds whole, or nothing follows the run (`mode` 2).
proof fn lemma_stuck_after(c: Seq<u8>, v: int, t: Seq<u8>, mode: int)
    requires
        0 <= v < c.len(),
        valid_utf8(c.take(v)),
        forall|k: int| v < k <= c.len() ==> !valid_utf8(#[trigger] c.take(k)),
        mode == 0 ==> forall|u: Seq<u8>| !valid_utf8(#[trigger] (c.skip(v) + u)),
        mode == 1 ==> !(2 <= lead_width(c[v]) <= 4),
        mode == 2 ==> 2 <= lead_width(c[v]) <= 4 && (v + lead_width(c[v]) <= c.len() || t.len()
            == 0),
        0 <= mode <= 2,
    ensures
        no_valid_prefix(c.skip(v) + t),
{
    let y = c.skip(v) + t;
    assert forall|j: int| 0 < j <= y.len() implies !valid_utf8(#[trigger] y.take(j)) by {
        if valid_utf8(y.take(j)) {
            let z = y.take(j);
            lemma_first_char(z);
            let w = length_of_first_scalar(z);
            assert(z[0] == c[v]);
            if v + w <= c.len() {
                assert(z.take(w) =~= c.subrange(v, v + w));
                lemma_decode_concat(c.take(v), c.subrange(v, v + w));
                assert(c.take(v) + c.subrange(v, v + w) =~= c.take(v + w));
                assert(!valid_utf8(c.take(v + w)));
            } else if mode == 0 {
                let u = z.take(w).skip(c.len() - v);
                assert(c.skip(v) + u =~= z.take(w));
                assert(!valid_utf8(c.skip(v) + u));
            } else if mode == 2 {
                assert(t.len() == 0);
                assert(y =~= c.skip(v));
            }
        }
    }
}

/// A valid prefix followed by bytes of which no non-empty prefix is valid has
/// no longer valid prefix.
proof fn lemma_no_longer_valid(pre: Seq<u8>, y: Seq<u8>)
    requires
        valid_utf8(pre),
        no_valid_prefix(y),
    ensures
        forall|k: int|
            pre.len() < k <= pre.len() + y.len() ==> !valid_utf8(#[trigger] (pre + y).take(k)),
        y.len() > 0 ==> !valid_utf8(pre + y),
        (pre + y).take(pre.len() as int) == pre,
{
    assert((pre + y).take(pre.len() as int) =~= pre);
    assert forall|k: int| pre.len() < k <= pre.len() + y.len() implies !valid_utf8(
        #[trigger] (pre + y).take(k),
    ) by {
        if valid_utf8((pre + y).take(k)) {
            let j = k - pre.len();
            assert((pre + y).take(k) =~= pre + y.take(j));
            lemma_valid_rest(pre, y.take(j));
        }
    }
    if y.len() > 0 {
        assert((pre + y).take((pre.len() + y.len()) as int) =~= pre + y);
    }
}

/// The bytes of the chunks from `i` on.
proof fn lemma_flat_from<'a>(s: Seq<ByteData<'a>>, i: int)
    requires
        0 <= i < s.len(),
    ensures
        flat(s.subrange(i, s.len() as int)) == s[i]@ + flat(s.subrange(i + 1, s.len() as int)),
{
    super::byte_queue::lemma_flat_push_front(s.subrange(i + 1, s.len() as int), s[i]);
    assert(seq![s[i]] + s.subrange(i + 1, s.len() as int) =~= s.subrange(i, s.len() as int));
}

/// The width of a multi-byte character that a leading byte announces, found
/// from its bit pattern; `None` where the byte starts no such character.
fn multibyte_lead_width(b: u8) -> (res: Option<usize>)
    ensures
        res matches Some(w) ==> 2 <= w <= 4 && w == lead_width(b),
        res is None ==> !(2 <= lead_width(b) <= 4),
{
    proof {
        utf8_byte_ranges_bitwise(b);
    }
    if b & 0b1111_1000 == 0b1111_0000 {
        Some(4)
    } else if b & 0b1111_0000 == 0b1110_0000 {
        Some(3)
    } else if b & 0b1110_0000 == 0b1100_0000 {
        Some(2)
    } else {
        None
    }
}

impl<'a> StringQueue<'a> {
    /// Moves bytes from the front of `chunk` to the end of the pending bytes of
    /// a split character, up to a character boundary, so that the pending bytes
    /// hold the whole character and fill at most 14 bytes.
    fn fill_pending(dat: &mut Vec<u8>, chunk: &mut ByteData<'a>, needed: usize)
        requires
            0 < old(dat)@.len() < needed <= 4,
            old(dat)@.len() + old(chunk)@.len() > 14,
        ensures
            final(dat)@ + final(chunk)@ == old(dat)@ + old(chunk)@,
            needed <= final(dat)@.len() <= 14,
            final(dat)@[0] == old(dat)@[0],
    {
        let dl = dat.len();
        let cl = chunk.len();
        let sl = chunk.as_slice();
        let mut pos: usize = 14 - dl;
        while pos > needed - dl
            invariant
                needed - dl <= pos <= 14 - dl,
                14 - dl < sl@.len(),
                needed <= 4,
                dl < needed,
            decreases pos,
        {
            if sl[pos] & 0b1100_0000 != 0b1000_0000 {
                break ;
            }
            pos -= 1;
        }
        let ghost before = dat@;
        let ghost cv = chunk@;
        dat.extend_from_slice(vstd::slice::slice_subrange(sl, 0, pos));
        chunk.make_sliced(pos..cl);
        proof {
            assert(dat@[0] == before[0]);
            assert(cv =~= cv.subrange(0, pos as int) + chunk@);
            assert(dat@ + chunk@ =~= before + cv);
        }
    }

    /// Checks the pending bytes of a split character, which `follow` follows.
    /// The valid characters move to `out`; `None` tells to go on, with what is
    /// left pending starting a split character; `Some` tells to stop with the
    /// error length that the check gave, where nothing valid can start at the
    /// pending bytes.
    fn check_pending(
        out: &mut Self,
        dat: &mut Vec<u8>,
        needed: &mut usize,
        follow: Ghost<Seq<u8>>,
    ) -> (res: Option<Option<usize>>)
        requires
            old(out)@.len() + old(dat)@.len() <= usize::MAX,
            0 < old(dat)@.len() <= 14,
            2 <= *old(needed) <= 4,
            *old(needed) == lead_width(old(dat)@[0]),
            old(dat)@.len() >= *old(needed) || follow@.len() == 0,
        ensures
            final(out)@ + final(dat)@ == old(out)@ + old(dat)@,
            final(dat)@.len() <= 14,
            res is None && final(dat)@.len() > 0 ==> 2 <= *final(needed) <= 4 && *final(needed)
                == lead_width(final(dat)@[0]),
            res is None ==> final(out)@.len() > old(out)@.len(),
            final(out)@.len() >= old(out)@.len(),
            res is Some ==> final(dat)@.len() > 0 && no_valid_prefix(final(dat)@ + follow@),
    {
        let dv = Ghost(dat@);
        match crate::stringdata::str_from_utf8(dat.as_slice()) {
            Ok(_) => {
                let piece = StringData::from_bytedata_unchecked(
                    ByteData::from_chunk_slice(dat.as_slice()),
                );
                out.push_back(piece);
                *dat = Vec::new();
                proof {
                    assert(out@ + dat@ =~= old(out)@ + dv@);
                }
                None
            },
            Err((vut, el)) => {
                if vut >= *needed {
                    let tail = dat.split_off(vut);
                    let piece = StringData::from_bytedata_unchecked(
                        ByteData::from_chunk_slice(dat.as_slice()),
                    );
                    out.push_back(piece);
                    *dat = tail;
                    proof {
                        assert(dat@ =~= dv@.skip(vut as int));
                        assert(out@ + dat@ =~= old(out)@ + dv@);
                    }
                    let fst = dat[0];
                    match el {
                        None => match multibyte_lead_width(fst) {
                            Some(w) => {
                                *needed = w;
                                None
                            },
                            None => {
                                proof {
                                    lemma_stuck_after(dv@, vut as int, follow@, 1);
                                }
                                Some(None)
                            },
                        },
                        Some(x) => {
                            proof {
                                lemma_stuck_after(dv@, vut as int, follow@, 0);
                            }
                            Some(Some(x))
                        },
                    }
                } else {
                    proof {
                        if vut > 0 {
                            lemma_first_char(dv@.take(vut as int));
                        }
                        assert(vut == 0);
                        assert(dv@.take(0) =~= Seq::<u8>::empty());
                        assert(dv@.skip(0) =~= dv@);
                        lemma_stuck_after(dv@, 0, follow@, 2);
                    }
                    Some(el)
                }
            },
        }
    }

    /// Checks a chunk that no split character precedes. Its valid characters move
    /// to `out`; a split character at its end becomes pending, as far as the
    /// chunk holds it. `Some` tells to stop with the error length that the check
    /// gave, where nothing valid can start at what is left of the chunk.
    fn check_chunk(
        out: &mut Self,
        chunk: &mut ByteData<'a>,
        dat: &mut Vec<u8>,
        needed: &mut usize,
        follow: Ghost<Seq<u8>>,
    ) -> (res: Option<Option<usize>>)
        requires
            old(out)@.len() + old(chunk)@.len() <= usize::MAX,
            old(chunk)@.len() > 0,
            old(dat)@.len() == 0,
        ensures
            final(out)@ + final(dat)@ + final(chunk)@ == old(out)@ + old(chunk)@,
            final(dat)@.len() <= 4,
            res is None && final(dat)@.len() > 0 ==> 2 <= *final(needed) <= 4 && *final(needed)
                == lead_width(final(dat)@[0]),
            res is None ==> final(out)@.len() > old(out)@.len() || final(dat)@.len() > 0,
            final(out)@.len() >= old(out)@.len(),
            res is Some ==> final(dat)@.len() == 0 && final(chunk)@.len() > 0 && no_valid_prefix(
                final(chunk)@ + follow@,
            ),
    {
        let cv = Ghost(chunk@);
        match crate::stringdata::str_from_utf8(chunk.as_slice()) {
            Ok(_) => {
                let mut whole = ByteData::empty();
                core::mem::swap(chunk, &mut whole);
                out.push_back(StringData::from_bytedata_unchecked(whole));
                proof {
                    assert(out@ + dat@ + chunk@ =~= old(out)@ + cv@);
                }
                None
            },
            Err((vut, el)) => {
                if vut != 0 {
                    let mut whole = ByteData::empty();
                    core::mem::swap(chunk, &mut whole);
                    let (valid, rest) = whole.split_at(vut);
                    *chunk = rest;
                    out.push_back(StringData::from_bytedata_unchecked(valid));
                }
                proof {
                    assert(chunk@ =~= cv@.skip(vut as int));
                    assert(out@ =~= old(out)@ + cv@.take(vut as int));
                }
                let fst = chunk.as_slice()[0];
                let w = match el {
                    None => match multibyte_lead_width(fst) {
                        Some(w) => w,
                        None => {
                            proof {
                                lemma_stuck_after(cv@, vut as int, follow@, 1);
                            }
                            return Some(None);
                        },
                    },
                    Some(x) => {
                        proof {
                            lemma_stuck_after(cv@, vut as int, follow@, 0);
                        }
                        return Some(Some(x));
                    },
                };
                *needed = w;
                let cl = chunk.len();
                let to_copy = if w < cl {
                    w
                } else {
                    cl
                };
                let ghost cv2 = chunk@;
                *dat = chunk.sliced(0..to_copy).into_vec();
                chunk.make_sliced(to_copy..cl);
                proof {
                    assert(cv2 =~= dat@ + chunk@);
                    assert(out@ + dat@ + chunk@ =~= old(out)@ + cv@);
                }
                None
            },
        }
    }

    /// Reads a byte queue as text, chunk by chunk. A character split between
    /// chunks is joined in a small chunk of its own, together with as many
    /// following whole characters as fit in it.
    ///
    /// # Errors
    ///
    /// Where the bytes are not valid UTF-8: the longest valid prefix of the text,
    /// and the length of the invalid sequence after it as the UTF-8 check of the
    /// run of bytes that holds it reports it (`None` where the text ends within a
    /// character).
    #[verifier::rlimit(60)]
    #[verifier::spinoff_prover]
    pub fn try_from_bytequeue(value: &ByteQueue<'a>) -> (res: Result<Self, (Self, Option<usize>)>)
        ensures
            res is Ok <==> valid_utf8(value@),
            res matches Ok(q) ==> q@ == value@,
            res matches Err((partial, _)) ==> {
                &&& partial@ == value@.take(partial@.len() as int)
                &&& partial@.len() < value@.len()
                &&& forall|k: int|
                    partial@.len() < k <= value@.len() ==> !valid_utf8(#[trigger] value@.take(k))
            },
    {
        value.check_well_formed();
        let ghost vs = value.spec_chunks();
        let n = value.chunk_len();
        let mut out = StringQueue::new();
        let mut dat: Vec<u8> = Vec::new();
        let mut needed: usize = 0;
        let mut chunk = ByteData::empty();
        let mut i: usize = 0;
        let mut iter_ended = false;
        proof {
            assert(vs.subrange(0, n as int) =~= vs);
            assert(value@ =~= out@ + dat@ + chunk@ + flat(vs.subrange(0, n as int)));
        }
        loop
            invariant
                n == vs.len(),
                vs == value.spec_chunks(),
                value@ == flat(vs),
                value@.len() <= usize::MAX,
                forall|j: int| 0 <= j < vs.len() ==> #[trigger] vs[j]@.len() > 0,
                i <= n,
                value@ == out@ + dat@ + chunk@ + flat(vs.subrange(i as int, n as int)),
                dat@.len() <= 14,
                dat@.len() > 0 ==> 2 <= needed <= 4 && needed == lead_width(dat@[0]),
                iter_ended ==> chunk@.len() == 0 && i == n,
            decreases
                value@.len() - out@.len(),
                value@.len() - out@.len() - dat@.len(),
                2 * (n - i) + if iter_ended {
                    0int
                } else {
                    1int
                },
        {
            if chunk.is_empty() && !iter_ended {
                if i < n {
                    proof {
                        lemma_flat_from(vs, i as int);
                    }
                    chunk = value.chunk_at(i).clone();
                    i += 1;
                    proof {
                        assert(value@ =~= out@ + dat@ + chunk@ + flat(
                            vs.subrange(i as int, n as int),
                        ));
                    }
                } else {
                    iter_ended = true;
                }
            }
            if dat.len() != 0 {
                if !chunk.is_empty() {
                    let dl = dat.len();
                    if chunk.len() + dl <= 14 {
                        let ghost before = dat@;
                        dat.extend_from_slice(chunk.as_slice());
                        chunk = ByteData::empty();
                        proof {
                            assert(dat@[0] == before[0]);
                            assert(value@ =~= out@ + dat@ + chunk@ + flat(
                                vs.subrange(i as int, n as int),
                            ));
                        }
                        continue ;
                    } else if dl < needed {
                        let ghost dc = dat@ + chunk@;
                        proof {
                            assert(value@ =~= out@ + dc + flat(vs.subrange(i as int, n as int)));
                        }
                        Self::fill_pending(&mut dat, &mut chunk, needed);
                        proof {
                            assert(value@ =~= out@ + dat@ + chunk@ + flat(
                                vs.subrange(i as int, n as int),
                            ));
                        }
                    }
                }
                let ghost follow = chunk@ + flat(vs.subrange(i as int, n as int));
                proof {
                    if chunk@.len() == 0 {
                        assert(iter_ended);
                        assert(vs.subrange(i as int, n as int) =~= Seq::<ByteData<'a>>::empty());
                        assert(flat(Seq::<ByteData<'a>>::empty()) =~= Seq::<u8>::empty());
                        assert(follow =~= Seq::<u8>::empty());
                    }
                }
                let ghost od = out@ + dat@;
                proof {
                    assert(value@ =~= od + chunk@ + flat(vs.subrange(i as int, n as int)));
                }
                match Self::check_pending(&mut out, &mut dat, &mut needed, Ghost(follow)) {
                    None => {
                        proof {
                            assert(value@ =~= out@ + dat@ + chunk@ + flat(
                                vs.subrange(i as int, n as int),
                            ));
                        }
                        continue ;
                    },
                    Some(el) => {
                        out.check_valid();
                        proof {
                            assert(value@ =~= out@ + (dat@ + follow));
                            lemma_no_longer_valid(out@, dat@ + follow);
                        }
                        return Err((out, el));
                    },
                }
            }
            if iter_ended {
                out.check_valid();
                proof {
                    assert(vs.subrange(i as int, n as int) =~= Seq::<ByteData<'a>>::empty());
                    assert(flat(Seq::<ByteData<'a>>::empty()) =~= Seq::<u8>::empty());
                    assert(value@ =~= out@);
                }
                return Ok(out);
            }
            let ghost follow = flat(vs.subrange(i as int, n as int));
            let ghost oc = out@ + chunk@;
            proof {
                assert(dat@.len() == 0);
                assert(value@ =~= oc + follow);
            }
            match Self::check_chunk(&mut out, &mut chunk, &mut dat, &mut needed, Ghost(follow)) {
                None => {
                    proof {
                        assert(value@ =~= out@ + dat@ + chunk@ + flat(
                            vs.subrange(i as int, n as int),
                        ));
                    }
                },
                Some(el) => {
                    out.check_valid();
                    proof {
                        assert(value@ =~= out@ + (chunk@ + follow));
                        lemma_no_longer_valid(out@, chunk@ + follow);
                    }
                    return Err((out, el));
                },
            }
        }
    }

    /// Reads a byte queue as text, chunk by chunk, as `try_from_bytequeue` does.
    ///
    /// # Errors
    ///
    /// Where the bytes are not valid UTF-8: the longest valid prefix of the text,
    /// the bytes after it, and the length of the invalid sequence that starts
    /// them (`None` where the text ends within a character).
    pub fn try_from_bytequeue_owned(value: ByteQueue<'a>) -> (res: Result<
        Self,
        (Self, ByteQueue<'a>, Option<usize>),
    >)
        ensures
            res is Ok <==> valid_utf8(value@),
            res matches Ok(q) ==> q@ == value@,
            res matches Err((partial, rest, _)) ==> {
                &&& partial@ + rest@ == value@
                &&& rest@.len() > 0
                &&& forall|k: int|
                    partial@.len() < k <= value@.len() ==> !valid_utf8(#[trigger] value@.take(k))
            },
    {
        match Self::try_from_bytequeue(&value) {
            Ok(q) => Ok(q),
            Err((partial, err)) => {
                let mut value = value;
                let plen = partial.len();
                let ghost whole = value@;
                value.consume(plen);
                proof {
                    assert(partial@ + value@ =~= whole);
                }
                Err((partial, value, err))
            },
        }
    }
}

} // verus!
