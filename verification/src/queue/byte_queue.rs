//! A queue of byte chunks.
use std::collections::VecDeque;
use vstd::prelude::*;

use crate::bytedata::ByteData;
use crate::slices::{first_occurrence, never_occurs, occurs_at};

verus! {

/// The bytes of each chunk.
pub open spec fn chunk_views<'a>(s: Seq<ByteData<'a>>) -> Seq<Seq<u8>> {
    s.map_values(|d: ByteData<'a>| d@)
}

/// All the bytes of the chunks, one chunk after the other.
pub open spec fn flat<'a>(s: Seq<ByteData<'a>>) -> Seq<u8> {
    chunk_views(s).flatten()
}

/// Where chunk `i` starts among all the bytes.
pub open spec fn chunk_start<'a>(s: Seq<ByteData<'a>>, i: int) -> int {
    flat(s.take(i)).len() as int
}

/// Adding a chunk at the back adds its bytes at the back.
pub proof fn lemma_flat_push<'a>(s: Seq<ByteData<'a>>, d: ByteData<'a>)
    ensures
        flat(s.push(d)) == flat(s) + d@,
{
    assert(chunk_views(s.push(d)) =~= chunk_views(s).push(d@));
    chunk_views(s).lemma_flatten_push(d@);
}

/// Adding a chunk at the front adds its bytes at the front.
pub proof fn lemma_flat_push_front<'a>(s: Seq<ByteData<'a>>, d: ByteData<'a>)
    ensures
        flat(seq![d] + s) == d@ + flat(s),
{
    let v = chunk_views(seq![d] + s);
    assert(v.first() == d@);
    assert(v.drop_first() =~= chunk_views(s));
}

/// The bytes of a non-empty list of chunks start with those of the first chunk.
pub proof fn lemma_flat_first<'a>(s: Seq<ByteData<'a>>)
    requires
        s.len() > 0,
    ensures
        flat(s) == s[0]@ + flat(s.subrange(1, s.len() as int)),
{
    assert(s =~= seq![s[0]] + s.subrange(1, s.len() as int));
    lemma_flat_push_front(s.subrange(1, s.len() as int), s[0]);
}

/// The bytes of a non-empty list of chunks end with those of the last chunk.
pub proof fn lemma_flat_last<'a>(s: Seq<ByteData<'a>>)
    requires
        s.len() > 0,
    ensures
        flat(s) == flat(s.subrange(0, s.len() - 1)) + s[s.len() - 1]@,
{
    assert(s =~= s.subrange(0, s.len() - 1).push(s[s.len() - 1]));
    lemma_flat_push(s.subrange(0, s.len() - 1), s[s.len() - 1]);
}

/// The bytes of the first `i + 1` chunks.
pub proof fn lemma_flat_take<'a>(s: Seq<ByteData<'a>>, i: int)
    requires
        0 <= i < s.len(),
    ensures
        flat(s.take(i + 1)) == flat(s.take(i)) + s[i]@,
{
    assert(s.take(i + 1) =~= s.take(i).push(s[i]));
    lemma_flat_push(s.take(i), s[i]);
}

/// The bytes of two lists of chunks, one after the other.
pub proof fn lemma_flat_concat<'a>(a: Seq<ByteData<'a>>, b: Seq<ByteData<'a>>)
    ensures
        flat(a + b) == flat(a) + flat(b),
    decreases b.len(),
{
    if b.len() == 0 {
        assert(a + b =~= a);
        assert(flat(b) =~= Seq::<u8>::empty());
        assert(flat(a) + flat(b) =~= flat(a));
    } else {
        let bl = b.subrange(0, b.len() - 1);
        lemma_flat_concat(a, bl);
        lemma_flat_last(b);
        assert(a + b =~= (a + bl).push(b[b.len() - 1]));
        lemma_flat_push(a + bl, b[b.len() - 1]);
        assert(flat(a + b) =~= flat(a) + flat(b));
    }
}

/// Chunk `i` sits at its start among all the bytes.
pub proof fn lemma_chunk_in_flat<'a>(s: Seq<ByteData<'a>>, i: int)
    requires
        0 <= i < s.len(),
    ensures
        chunk_start(s, i) + s[i]@.len() <= flat(s).len(),
        flat(s).subrange(chunk_start(s, i), chunk_start(s, i) + s[i]@.len()) == s[i]@,
        flat(s).take(chunk_start(s, i)) == flat(s.take(i)),
        chunk_start(s, i + 1) == chunk_start(s, i) + s[i]@.len(),
{
    lemma_flat_take(s, i);
    lemma_flat_concat(s.take(i + 1), s.skip(i + 1));
    assert(s.take(i + 1) + s.skip(i + 1) =~= s);
    let p = flat(s.take(i));
    assert(flat(s) == p + s[i]@ + flat(s.skip(i + 1)));
    assert(flat(s).subrange(p.len() as int, (p.len() + s[i]@.len()) as int) =~= s[i]@);
    assert(flat(s).take(p.len() as int) =~= p);
}

/// All chunks up to the last make up all the bytes.
pub proof fn lemma_chunk_start_end<'a>(s: Seq<ByteData<'a>>)
    ensures
        chunk_start(s, s.len() as int) == flat(s).len(),
        chunk_start(s, 0) == 0,
{
    assert(s.take(s.len() as int) =~= s);
    assert(s.take(0) =~= Seq::<ByteData<'a>>::empty());
    assert(flat(Seq::<ByteData<'a>>::empty()) =~= Seq::<u8>::empty());
}

/// A queue of byte chunks.
pub struct ByteQueue<'a> {
    pub(crate) queue: VecDeque<ByteData<'a>>,
    pub(crate) remain: usize,
}

impl<'a> View for ByteQueue<'a> {
    type V = Seq<u8>;

    closed spec fn view(&self) -> Seq<u8> {
        flat(self.queue@)
    }
}

impl<'a> ByteQueue<'a> {
    #[verifier::type_invariant]
    spec fn inv(self) -> bool {
        &&& self.remain == flat(self.queue@).len()
        &&& forall|i: int| 0 <= i < self.queue@.len() ==> #[trigger] self.queue@[i]@.len() > 0
    }

    /// The chunks of the queue.
    pub closed spec fn spec_chunks(&self) -> Seq<ByteData<'a>> {
        self.queue@
    }

    /// Facts that hold of every queue.
    pub fn check_well_formed(&self)
        ensures
            self@ == flat(self.spec_chunks()),
            self@.len() <= usize::MAX,
            forall|i: int|
                0 <= i < self.spec_chunks().len() ==> #[trigger] self.spec_chunks()[i]@.len() > 0,
    {
        proof {
            use_type_invariant(self);
        }
    }

    /// Create a new empty `ByteQueue`.
    pub fn new() -> (res: Self)
        ensures
            res@ == Seq::<u8>::empty(),
            res.spec_chunks() == Seq::<ByteData<'a>>::empty(),
    {
        let res = ByteQueue { queue: VecDeque::new(), remain: 0 };
        proof {
            assert(flat(Seq::<ByteData<'a>>::empty()) =~= Seq::<u8>::empty());
        }
        res
    }

    /// Create a new `ByteQueue` with a single chunk; an empty chunk is left out.
    pub fn with_item(data: ByteData<'a>) -> (res: Self)
        ensures
            res@ == data@,
            data@.len() > 0 ==> res.spec_chunks() == seq![data],
            data@.len() == 0 ==> res.spec_chunks().len() == 0,
    {
        let mut res = Self::new();
        let _n = data.len();
        res.push_back(data);
        proof {
            assert(Seq::<ByteData<'a>>::empty().push(data) =~= seq![data]);
        }
        res
    }

    /// Checks if the queue is full; a queue on the heap never is.
    pub fn is_full(&self) -> (res: bool)
        ensures
            !res,
    {
        false
    }

    /// Append bytes to the queue; empty data is left out.
    pub fn push_back(&mut self, data: ByteData<'a>)
        requires
            old(self)@.len() + data@.len() <= usize::MAX,
        ensures
            final(self)@ == old(self)@ + data@,
            data@.len() > 0 ==> final(self).spec_chunks() == old(self).spec_chunks().push(data),
            data@.len() == 0 ==> final(self).spec_chunks() == old(self).spec_chunks(),
    {
        proof {
            use_type_invariant(&*self);
        }
        if data.is_empty() {
            assert(self@ + data@ =~= self@);
            return;
        }
        let mut taken = ByteQueue::new();
        core::mem::swap(self, &mut taken);
        let ByteQueue { mut queue, remain } = taken;
        let ghost before = queue@;
        let n = data.len();
        queue.push_back(data);
        proof {
            lemma_flat_push(before, data);
        }
        *self = ByteQueue { queue, remain: remain + n };
    }

    /// Prepend bytes into the queue; empty data is left out.
    pub fn push_front(&mut self, data: ByteData<'a>)
        requires
            old(self)@.len() + data@.len() <= usize::MAX,
        ensures
            final(self)@ == data@ + old(self)@,
            data@.len() > 0 ==> final(self).spec_chunks() == seq![data] + old(self).spec_chunks(),
            data@.len() == 0 ==> final(self).spec_chunks() == old(self).spec_chunks(),
    {
        proof {
            use_type_invariant(&*self);
        }
        if data.is_empty() {
            assert(data@ + self@ =~= self@);
            return;
        }
        let mut taken = ByteQueue::new();
        core::mem::swap(self, &mut taken);
        let ByteQueue { mut queue, remain } = taken;
        let ghost before = queue@;
        let n = data.len();
        queue.push_front(data);
        proof {
            lemma_flat_push_front(before, data);
        }
        *self = ByteQueue { queue, remain: remain + n };
    }

    /// A queue of the given chunks, in order; empty chunks are left out.
    pub fn from_iter(items: Vec<ByteData<'a>>) -> (res: Self)
        requires
            flat(items@).len() <= usize::MAX,
        ensures
            res@ == flat(items@),
    {
        let ghost orig = items@;
        let mut items = items;
        let mut out = Self::new();
        proof {
            assert(orig.skip(orig.len() as int) =~= Seq::<ByteData<'a>>::empty());
            assert(flat(Seq::<ByteData<'a>>::empty()) =~= Seq::<u8>::empty());
            assert(orig.take(orig.len() as int) =~= orig);
            lemma_flat_concat(orig.take(orig.len() as int), orig.skip(orig.len() as int));
        }
        while items.len() > 0
            invariant
                items@ == orig.take(items@.len() as int),
                items@.len() <= orig.len(),
                out@ == flat(orig.skip(items@.len() as int)),
                flat(orig).len() <= usize::MAX,
                flat(orig) == flat(orig.take(items@.len() as int)) + out@,
            decreases items@.len(),
        {
            let k = items.len();
            let d = items.pop().unwrap();
            proof {
                assert(d == orig[k - 1]);
                lemma_flat_push_front(orig.skip(k as int), d);
                assert(seq![d] + orig.skip(k as int) =~= orig.skip(k - 1));
                lemma_flat_take(orig, k - 1);
                assert(orig.take(k - 1 + 1) =~= orig.take(k as int));
                assert(items@ =~= orig.take(k - 1));
            }
            out.push_front(d);
        }
        proof {
            assert(orig.skip(0) =~= orig);
        }
        out
    }

    /// Remove the first chunk from the queue.
    pub fn pop_front(&mut self) -> (res: Option<ByteData<'a>>)
        ensures
            old(self).spec_chunks().len() == 0 <==> res is None,
            old(self)@.len() == 0 <==> res is None,
            res is None ==> final(self)@ == old(self)@ && final(self).spec_chunks() == old(
                self,
            ).spec_chunks(),
            res matches Some(d) ==> {
                &&& d == old(self).spec_chunks()[0]
                &&& d@.len() > 0
                &&& old(self)@ == d@ + final(self)@
                &&& final(self).spec_chunks() == old(self).spec_chunks().drop_first()
            },
    {
        proof {
            use_type_invariant(&*self);
            if self.queue@.len() == 0 {
                assert(flat(self.queue@) =~= Seq::<u8>::empty());
            } else {
                lemma_flat_first(self.queue@);
                assert(self.queue@[0]@.len() > 0);
            }
        }
        let mut taken = ByteQueue::new();
        core::mem::swap(self, &mut taken);
        let ByteQueue { mut queue, remain } = taken;
        let ghost before = queue@;
        match queue.pop_front() {
            None => {
                *self = ByteQueue { queue, remain };
                None
            },
            Some(d) => {
                let n = d.len();
                proof {
                    assert(queue@ =~= before.drop_first());
                }
                *self = ByteQueue { queue, remain: remain - n };
                Some(d)
            },
        }
    }

    /// Remove the last chunk from the queue.
    pub fn pop_back(&mut self) -> (res: Option<ByteData<'a>>)
        ensures
            old(self).spec_chunks().len() == 0 <==> res is None,
            old(self)@.len() == 0 <==> res is None,
            res is None ==> final(self)@ == old(self)@ && final(self).spec_chunks() == old(
                self,
            ).spec_chunks(),
            res matches Some(d) ==> {
                &&& d == old(self).spec_chunks().last()
                &&& d@.len() > 0
                &&& old(self)@ == final(self)@ + d@
                &&& final(self).spec_chunks() == old(self).spec_chunks().drop_last()
            },
    {
        proof {
            use_type_invariant(&*self);
            if self.queue@.len() == 0 {
                assert(flat(self.queue@) =~= Seq::<u8>::empty());
            } else {
                lemma_flat_last(self.queue@);
                assert(self.queue@[self.queue@.len() - 1]@.len() > 0);
                if flat(self.queue@).len() == 0 {
                    assert(false);
                }
            }
        }
        let mut taken = ByteQueue::new();
        core::mem::swap(self, &mut taken);
        let ByteQueue { mut queue, remain } = taken;
        let ghost before = queue@;
        match queue.pop_back() {
            None => {
                *self = ByteQueue { queue, remain };
                None
            },
            Some(d) => {
                let n = d.len();
                proof {
                    assert(queue@ =~= before.drop_last());
                }
                *self = ByteQueue { queue, remain: remain - n };
                Some(d)
            },
        }
    }

    /// Get the first chunk in the queue.
    pub fn front(&self) -> (res: Option<&ByteData<'a>>)
        ensures
            self.spec_chunks().len() == 0 ==> res is None,
            self.spec_chunks().len() > 0 ==> res == Some(&self.spec_chunks()[0]),
    {
        if self.queue.len() == 0 {
            None
        } else {
            Some(&self.queue[0])
        }
    }

    /// Get the last chunk in the queue.
    pub fn back(&self) -> (res: Option<&ByteData<'a>>)
        ensures
            self.spec_chunks().len() == 0 ==> res is None,
            self.spec_chunks().len() > 0 ==> res == Some(&self.spec_chunks().last()),
    {
        let n = self.queue.len();
        if n == 0 {
            None
        } else {
            Some(&self.queue[n - 1])
        }
    }

    /// Check if there are no bytes in the queue.
    pub fn is_empty(&self) -> (res: bool)
        ensures
            res == (self@.len() == 0),
    {
        proof {
            use_type_invariant(self);
        }
        self.remain == 0
    }

    /// The amount of bytes in the queue.
    pub fn len(&self) -> (res: usize)
        ensures
            res == self@.len(),
    {
        proof {
            use_type_invariant(self);
        }
        self.remain
    }

    /// The amount of chunks in the queue.
    pub fn chunk_len(&self) -> (res: usize)
        ensures
            res == self.spec_chunks().len(),
    {
        self.queue.len()
    }

    /// The chunk at `index`.
    pub fn chunk_at(&self, index: usize) -> (res: &ByteData<'a>)
        requires
            index < self.spec_chunks().len(),
        ensures
            *res == self.spec_chunks()[index as int],
    {
        &self.queue[index]
    }

    /// Finds the chunk that holds byte `pos` and where in it the byte is.
    pub(crate) fn locate(&self, pos: usize) -> (res: (usize, usize))
        requires
            pos < self@.len(),
        ensures
            res.0 < self.spec_chunks().len(),
            res.1 < self.spec_chunks()[res.0 as int]@.len(),
            chunk_start(self.spec_chunks(), res.0 as int) + res.1 == pos,
    {
        proof {
            use_type_invariant(self);
            lemma_chunk_start_end(self.queue@);
        }
        let n = self.queue.len();
        let mut i: usize = 0;
        let mut start: usize = 0;
        while i < n
            invariant
                n == self.queue@.len(),
                i <= n,
                start == chunk_start(self.queue@, i as int),
                start <= pos,
                pos < flat(self.queue@).len(),
                chunk_start(self.queue@, n as int) == flat(self.queue@).len(),
            decreases n - i,
        {
            proof {
                lemma_chunk_in_flat(self.queue@, i as int);
            }
            let l = self.queue[i].len();
            if pos - start < l {
                return (i, pos - start);
            }
            start = start + l;
            i += 1;
        }
        proof {
            assert(false);
        }
        (0, 0)
    }

    /// The byte at `pos`.
    pub fn get_byte(&self, pos: usize) -> (res: u8)
        requires
            pos < self@.len(),
        ensures
            res == self@[pos as int],
    {
        let (c, off) = self.locate(pos);
        proof {
            use_type_invariant(self);
            lemma_chunk_in_flat(self.queue@, c as int);
            let s = chunk_start(self.queue@, c as int);
            assert(self.queue@[c as int]@[off as int] == flat(self.queue@).subrange(
                s,
                s + self.queue@[c as int]@.len(),
            )[off as int]);
        }
        self.queue[c].get(off)
    }
}


/// `needle` occurs at `pos` or later, and `pos` is the first such place.
pub open spec fn first_occurrence_from(haystack: Seq<u8>, needle: Seq<u8>, start: int, pos: int) -> bool {
    &&& start <= pos
    &&& occurs_at(haystack, needle, pos)
    &&& forall|q: int| start <= q < pos ==> !#[trigger] occurs_at(haystack, needle, q)
}

/// `needle` occurs nowhere at `start` or later.
pub open spec fn never_occurs_from(haystack: Seq<u8>, needle: Seq<u8>, start: int) -> bool {
    forall|q: int| start <= q ==> !#[trigger] occurs_at(haystack, needle, q)
}

/// `pos` clamped into `lo..=hi`.
pub open spec fn clamp(pos: int, lo: int, hi: int) -> int {
    if pos < lo {
        lo
    } else if pos > hi {
        hi
    } else {
        pos
    }
}

impl<'a> ByteQueue<'a> {
    /// Advance the queue by a certain amount of bytes.
    pub fn consume(&mut self, cnt: usize)
        requires
            cnt <= old(self)@.len(),
        ensures
            final(self)@ == old(self)@.skip(cnt as int),
    {
        let ghost orig = self@;
        self.check_well_formed();
        let mut left = cnt;
        let mut done: usize = 0;
        proof {
            assert(orig.skip(0) =~= orig);
        }
        while left > 0
            invariant
                done + left == cnt,
                cnt <= orig.len(),
                orig == old(self)@,
                orig.len() <= usize::MAX,
                self@ == orig.skip(done as int),
            decreases left,
        {
            let ghost before = self@;
            let f = self.pop_front();
            match f {
                None => {
                    proof {
                        assert(false);
                    }
                    return;
                },
                Some(f) => {
                    let len = f.len();
                    if len > left {
                        let ghost old_f = f@;
                        let mut f = f;
                        f.make_sliced(left..len);
                        let ghost rest = self@;
                        self.push_front(f);
                        proof {
                            assert(before == old_f + rest);
                            assert(orig.skip(done + left) =~= before.skip(left as int));
                            assert(self@ =~= orig.skip(done + left));
                        }
                        return;
                    }
                    proof {
                        assert(before == f@ + self@);
                        assert(orig.skip(done + len) =~= before.skip(len as int));
                        assert(before.skip(len as int) =~= self@);
                    }
                    left -= len;
                    done += len;
                },
            }
        }
    }

    /// Checks a range against the queue, giving its start and end.
    pub(crate) fn check_range(&self, range: core::ops::Range<usize>) -> (res: (usize, usize))
        requires
            range.start <= range.end <= self@.len(),
        ensures
            res == (range.start, range.end),
    {
        (range.start, range.end)
    }

    /// Return a slice of the buffer.
    pub fn slice(&self, range: core::ops::Range<usize>) -> (res: Self)
        requires
            range.start <= range.end <= self@.len(),
        ensures
            res@ == self@.subrange(range.start as int, range.end as int),
    {
        proof {
            use_type_invariant(self);
            lemma_chunk_start_end(self.queue@);
        }
        let (start, end) = self.check_range(range);
        let mut out = Self::new();
        if end == 0 || start == end {
            proof {
                assert(out@ =~= self@.subrange(start as int, end as int));
            }
            return out;
        }
        let ghost all = self@;
        let n = self.queue.len();
        let mut i: usize = 0;
        let mut cs: usize = 0;
        while i < n
            invariant
                n == self.queue@.len(),
                all == flat(self.queue@),
                i <= n,
                cs == chunk_start(self.queue@, i as int),
                chunk_start(self.queue@, n as int) == all.len(),
                start < end <= all.len(),
                all.len() <= usize::MAX,
                out@ == all.subrange(start as int, clamp(cs as int, start as int, end as int)),
                forall|k: int| 0 <= k < n ==> #[trigger] self.queue@[k]@.len() > 0,
            decreases n - i,
        {
            proof {
                lemma_chunk_in_flat(self.queue@, i as int);
            }
            let v = &self.queue[i];
            let l = v.len();
            let ce = cs + l;
            let a = if cs < start {
                start
            } else if cs > end {
                end
            } else {
                cs
            };
            let b = if ce < start {
                start
            } else if ce > end {
                end
            } else {
                ce
            };
            let ghost prev = out@;
            if a < b {
                if a == cs && b == ce {
                    out.push_back(v.clone());
                } else {
                    out.push_back(v.sliced((a - cs)..(b - cs)));
                }
            }
            proof {
                let sub = all.subrange(cs as int, ce as int);
                assert(sub == v@);
                if a < b {
                    assert(v@.subrange(a - cs, b - cs) =~= all.subrange(a as int, b as int));
                }
                assert(all.subrange(start as int, b as int) =~= all.subrange(start as int, a as int)
                    + all.subrange(a as int, b as int));
            }
            cs = ce;
            i += 1;
        }
        proof {
            assert(clamp(cs as int, start as int, end as int) == end);
        }
        out
    }

    /// Check if the queue holds `data` starting at byte `index`.
    pub fn exists_at(&self, index: usize, data: &[u8]) -> (res: bool)
        ensures
            res == (index + data@.len() <= self@.len() && self@.subrange(
                index as int,
                index + data@.len(),
            ) == data@),
    {
        let len = self.len();
        if index > len || data.len() > len - index {
            return false;
        }
        let m = data.len();
        let mut k: usize = 0;
        while k < m
            invariant
                m == data@.len(),
                len == self@.len(),
                index + m <= len,
                k <= m,
                forall|j: int| 0 <= j < k ==> self@[index + j] == data@[j],
            decreases m - k,
        {
            let b = self.get_byte(index + k);
            if b != data[k] {
                proof {
                    assert(self@.subrange(index as int, index + m)[k as int] != data@[k as int]);
                }
                return false;
            }
            k += 1;
        }
        proof {
            assert(self@.subrange(index as int, index + m) =~= data@);
        }
        true
    }

    /// Check if the queue starts with a certain byte sequence.
    pub fn starts_with(&self, data: &[u8]) -> (res: bool)
        ensures
            res == data@.is_prefix_of(self@),
    {
        if data.len() > self.len() {
            return false;
        }
        self.exists_at(0, data)
    }

    /// Check if the queue ends with a certain byte sequence.
    pub fn ends_with(&self, data: &[u8]) -> (res: bool)
        ensures
            res == data@.is_suffix_of(self@),
    {
        if data.len() > self.len() {
            return false;
        }
        self.exists_at(self.len() - data.len(), data)
    }

    /// Find the position of the first byte that meets `f`.
    pub fn find_byte<F: Fn(u8) -> bool>(&self, f: F) -> (res: Option<usize>)
        requires
            forall|b: u8| f.requires((b,)),
        ensures
            forall|i: int|
                0 <= i < (if let Some(p) = res {
                    p as int
                } else {
                    self@.len() as int
                }) ==> f.ensures((#[trigger] self@[i],), false),
            res matches Some(p) ==> p < self@.len() && f.ensures((self@[p as int],), true),
    {
        let len = self.len();
        let mut pos: usize = 0;
        while pos < len
            invariant
                len == self@.len(),
                pos <= len,
                forall|b: u8| f.requires((b,)),
                forall|i: int| 0 <= i < pos ==> f.ensures((#[trigger] self@[i],), false),
            decreases len - pos,
        {
            let b = self.get_byte(pos);
            if f(b) {
                return Some(pos);
            }
            pos += 1;
        }
        None
    }

    /// Find the first position of a byte sequence in the queue.
    /// An empty sequence is found at position zero.
    pub fn find_slice(&self, data: &[u8]) -> (res: Option<usize>)
        ensures
            data@.len() == 0 ==> res == Some(0usize),
            data@.len() > 0 ==> match res {
                Some(p) => first_occurrence(self@, data@, p as int),
                None => never_occurs(self@, data@),
            },
    {
        let r = self.find_slice_after(data, 0);
        proof {
            if data@.len() > 0 {
                match r {
                    Some(p) => {
                        assert forall|q: int| 0 <= q < p implies !#[trigger] occurs_at(
                            self@,
                            data@,
                            q,
                        ) by {
                            assert(0 <= q);
                        }
                    },
                    None => {
                        assert forall|q: int| !#[trigger] occurs_at(self@, data@, q) by {
                            if occurs_at(self@, data@, q) {
                                assert(0 <= q);
                            }
                        }
                    },
                }
            }
        }
        r
    }

    /// Find the first position at or after `start` of a byte sequence in the queue.
    /// An empty sequence is found at position zero.
    pub fn find_slice_after(&self, data: &[u8], start: usize) -> (res: Option<usize>)
        ensures
            data@.len() == 0 ==> res == Some(0usize),
            data@.len() > 0 ==> match res {
                Some(p) => first_occurrence_from(self@, data@, start as int, p as int),
                None => never_occurs_from(self@, data@, start as int),
            },
    {
        if data.len() == 0 {
            return Some(0);
        }
        proof {
            use_type_invariant(self);
            lemma_chunk_start_end(self.queue@);
        }
        if start > self.len() {
            proof {
                assert forall|q: int| start <= q implies !#[trigger] occurs_at(self@, data@, q) by {
                }
            }
            return None;
        }
        proof {
            assert(chunk_start(self.queue@, 0) == 0);
        }
        match self.find_slice_pos(data, 0, start, start) {
            Some((p, _, _)) => Some(p),
            None => None,
        }
    }

    /// Find the first occurrence of a byte sequence at or after byte
    /// `start_byte`, which lies `start_offset` bytes into chunk `start_chunk`.
    /// Gives its position, the chunk it starts in, and where in that chunk.
    /// An empty sequence is found at the very start.
    pub(crate) fn find_slice_pos(
        &self,
        data: &[u8],
        start_chunk: usize,
        start_offset: usize,
        start_byte: usize,
    ) -> (res: Option<(usize, usize, usize)>)
        requires
            start_chunk <= self.spec_chunks().len(),
            start_byte == chunk_start(self.spec_chunks(), start_chunk as int) + start_offset,
            start_byte <= self@.len(),
        ensures
            data@.len() == 0 ==> res == Some((0usize, 0usize, 0usize)),
            data@.len() > 0 ==> match res {
                Some((p, c, o)) => {
                    &&& first_occurrence_from(self@, data@, start_byte as int, p as int)
                    &&& c < self.spec_chunks().len()
                    &&& o < self.spec_chunks()[c as int]@.len()
                    &&& chunk_start(self.spec_chunks(), c as int) + o == p
                },
                None => never_occurs_from(self@, data@, start_byte as int),
            },
    {
        if data.len() == 0 {
            return Some((0, 0, 0));
        }
        self.find_slice_pos_nonempty(data, start_chunk, start_offset, start_byte)
    }

    /// Find the first occurrence of a non-empty byte sequence at or after byte
    /// `start_byte`, which lies `start_offset` bytes into chunk `start_chunk`.
    /// Gives its position, the chunk it starts in, and where in that chunk.
    fn find_slice_pos_nonempty(
        &self,
        data: &[u8],
        start_chunk: usize,
        start_offset: usize,
        start_byte: usize,
    ) -> (res: Option<(usize, usize, usize)>)
        requires
            data@.len() > 0,
            start_chunk <= self.spec_chunks().len(),
            start_byte == chunk_start(self.spec_chunks(), start_chunk as int) + start_offset,
            start_byte <= self@.len(),
        ensures
            match res {
                Some((p, c, o)) => {
                    &&& first_occurrence_from(self@, data@, start_byte as int, p as int)
                    &&& c < self.spec_chunks().len()
                    &&& o < self.spec_chunks()[c as int]@.len()
                    &&& chunk_start(self.spec_chunks(), c as int) + o == p
                },
                None => never_occurs_from(self@, data@, start_byte as int),
            },
    {
        let len = self.len();
        let m = data.len();
        if m > len - start_byte {
            proof {
                assert forall|q: int| start_byte <= q implies !#[trigger] occurs_at(
                    self@,
                    data@,
                    q,
                ) by {}
            }
            return None;
        }
        let last = len - m;
        let mut pos = start_byte;
        loop
            invariant
                len == self@.len(),
                m == data@.len(),
                m > 0,
                last + m == len,
                start_byte <= pos <= last,
                forall|q: int| start_byte <= q < pos ==> !#[trigger] occurs_at(self@, data@, q),
            decreases last - pos,
        {
            if self.exists_at(pos, data) {
                let (c, o) = self.locate(pos);
                return Some((pos, c, o));
            }
            if pos == last {
                proof {
                    assert forall|q: int| start_byte <= q implies !#[trigger] occurs_at(
                        self@,
                        data@,
                        q,
                    ) by {
                        if q > last {
                        }
                    }
                }
                return None;
            }
            pos += 1;
        }
    }

    /// Adds another queue's chunks to the back of this queue.
    pub fn append(&mut self, other: ByteQueue<'a>)
        requires
            old(self)@.len() + other@.len() <= usize::MAX,
        ensures
            final(self)@ == old(self)@ + other@,
    {
        let ghost orig = self@;
        let ghost oth = other@;
        let mut other = other;
        loop
            invariant
                self@ + other@ == orig + oth,
                (orig + oth).len() <= usize::MAX,
            ensures
                self@ == orig + oth,
            decreases other@.len(),
        {
            let ghost before_self = self@;
            let ghost before_other = other@;
            match other.pop_front() {
                None => {
                    proof {
                        assert(other@ =~= Seq::<u8>::empty());
                        assert(self@ + other@ =~= self@);
                    }
                    break;
                },
                Some(d) => {
                    proof {
                        assert(self@ + d@ + other@ =~= before_self + before_other);
                    }
                    self.push_back(d);
                    proof {
                        assert(self@ + other@ =~= orig + oth);
                    }
                },
            }
        }
    }

    /// Split the queue at a certain index.
    /// This returns the part of the queue after the index `[at, len)` and keeps
    /// everything before the position in the original queue `[0, at)`.
    pub fn split_off(&mut self, at: usize) -> (res: Self)
        requires
            at <= old(self)@.len(),
        ensures
            final(self)@ == old(self)@.take(at as int),
            res@ == old(self)@.skip(at as int),
    {
        let ghost orig = self@;
        let mut out = Self::new();
        if at == 0 {
            core::mem::swap(self, &mut out);
            proof {
                assert(orig.skip(0) =~= orig);
                assert(orig.take(0) =~= Seq::<u8>::empty());
            }
            return out;
        }
        self.check_well_formed();
        let mut remain = self.len() - at;
        proof {
            assert(orig.skip(orig.len() as int) =~= Seq::<u8>::empty());
            assert(self@ + out@ =~= orig);
        }
        while remain > 0
            invariant
                orig.len() <= usize::MAX,
                self@ + out@ == orig,
                self@.len() == at + remain,
                at <= orig.len(),
            decreases remain,
        {
            let ghost before = self@;
            let ghost before_out = out@;
            match self.pop_back() {
                None => {
                    proof {
                        assert(false);
                    }
                    return out;
                },
                Some(a) => {
                    let l = a.len();
                    if l > remain {
                        let (x, y) = a.split_at(l - remain);
                        proof {
                            assert(x@ + y@ =~= a@);
                        }
                        self.push_back(x);
                        out.push_front(y);
                        proof {
                            assert(self@ + out@ =~= orig);
                        }
                        remain = 0;
                    } else {
                        out.push_front(a);
                        proof {
                            assert(self@ + out@ =~= orig);
                        }
                        remain -= l;
                    }
                },
            }
        }
        proof {
            assert(self@ =~= orig.take(at as int));
            assert(out@ =~= orig.skip(at as int));
        }
        out
    }

    /// Removes the bytes in `range` from the queue, handing them out.
    pub fn drain(&mut self, range: core::ops::Range<usize>) -> (res: super::drain::DrainBytes<'a>)
        requires
            range.start <= range.end <= old(self)@.len(),
        ensures
            res@ == old(self)@.subrange(range.start as int, range.end as int),
            final(self)@ == old(self)@.take(range.start as int) + old(self)@.skip(range.end as int),
    {
        let ghost orig = self@;
        self.check_well_formed();
        let (start, end) = self.check_range(range);
        let tail = self.split_off(end);
        let mid = self.split_off(start);
        self.append(tail);
        proof {
            assert(mid@ =~= orig.subrange(start as int, end as int));
        }
        super::drain::DrainBytes::new(mid)
    }

    /// Iterates over each chunk of bytedata in the queue.
    pub fn into_iter(self) -> (res: super::chunk_iter::ChunkIter<'a>)
        ensures
            res.spec_chunks() == self.spec_chunks(),
    {
        super::chunk_iter::ChunkIter::new(self)
    }

    /// Iterates over each chunk in the queue.
    pub fn chunks(&self) -> (res: super::linked_iter::LinkedIter<'a, '_>)
        ensures
            res.spec_remaining() == self.spec_chunks(),
    {
        super::linked_iter::LinkedIter::new(self)
    }

    /// Iterates over each byte in the queue.
    pub fn bytes(&self) -> (res: super::byte_iter::ByteIter<'a, '_>)
        ensures
            res@ == self@,
    {
        super::byte_iter::ByteIter::new(self)
    }

    /// Iterates over each byte in the queue, consuming it.
    pub fn into_bytes(self) -> (res: super::byte_iter::OwnedByteIter<'a>)
        ensures
            res@ == self@,
    {
        super::byte_iter::OwnedByteIter::new(self)
    }

    /// Splits the queue on a byte sequence, which must not be empty.
    pub fn split_on<'b>(&'b self, needle: &'b [u8]) -> (res: super::split::SplitOn<'a, 'b>)
        requires
            needle@.len() > 0,
        ensures
            res.spec_rest() == self@,
            res.spec_needle() == needle@,
            res.spec_max() == 0,
            res.spec_done() == (self@.len() == 0),
    {
        super::split::SplitOn::new(self, needle, 0)
    }

    /// Splits the queue on a byte sequence, which must not be empty, into at
    /// most `max` parts; zero means no limit.
    pub fn splitn_on<'b>(&'b self, needle: &'b [u8], max: usize) -> (res: super::split::SplitOn<
        'a,
        'b,
    >)
        requires
            needle@.len() > 0,
        ensures
            res.spec_rest() == self@,
            res.spec_needle() == needle@,
            res.spec_max() == max,
            res.spec_done() == (self@.len() == 0),
    {
        super::split::SplitOn::new(self, needle, max)
    }

    /// Joins the queue into one `ByteData`; the bytes of several chunks are
    /// copied into a shared buffer, so they must fit in one.
    pub fn into_bytedata(self) -> (res: ByteData<'a>)
        requires
            self@.len() + 12 <= 0xFFFF_FFFF,
        ensures
            res@ == self@,
    {
        let ghost orig = self@;
        let mut data = self;
        let fst = match data.pop_front() {
            Some(v) => v,
            None => return ByteData::empty(),
        };
        if data.is_empty() {
            proof {
                assert(fst@ + data@ =~= fst@);
            }
            return fst;
        }
        let mut out = crate::shared_bytes_builder::SharedBytesBuilder::with_capacity(
            fst.len() + data.len(),
        );
        out.lemma_well_formed();
        out.extend_from_slice(fst.as_slice());
        loop
            invariant
                out@ + data@ == orig,
                orig.len() + 12 <= 0xFFFF_FFFF,
                out.spec_align() == 4,
            ensures
                out@ == orig,
            decreases data@.len(),
        {
            out.lemma_well_formed();
            proof {
                crate::shared_bytes_builder::lemma_small_pow2s();
            }
            let ghost before = data@;
            match data.pop_front() {
                None => {
                    proof {
                        assert(data@ =~= Seq::<u8>::empty());
                        assert(out@ + data@ =~= out@);
                    }
                    break;
                },
                Some(d) => {
                    out.extend_from_slice(d.as_slice());
                    proof {
                        assert(out@ + data@ =~= orig);
                    }
                },
            }
        }
        ByteData::from_shared(out.build())
    }

    /// Makes every chunk independent of borrowed data. Borrowed chunks are
    /// copied into shared buffers, so each of them must fit in one; owned and
    /// static chunks are kept as they are.
    pub fn into_shared<'o>(self) -> (res: ByteQueue<'o>)
        requires
            forall|i: int|
                0 <= i < self.spec_chunks().len() && !#[trigger] self.spec_chunks()[i].spec_is_owned_or_static()
                    ==> self.spec_chunks()[i]@.len() + 12 <= 0xFFFF_FFFF,
        ensures
            res@ == self@,
            forall|i: int|
                0 <= i < res.spec_chunks().len() ==> #[trigger] res.spec_chunks()[i].spec_is_owned_or_static(),
    {
        let ghost orig = self@;
        let ghost chunks = self.spec_chunks();
        let mut src = self;
        src.check_well_formed();
        let nchunks = src.chunk_len();
        let mut out: ByteQueue<'o> = ByteQueue::new();
        let mut i: usize = 0;
        proof {
            assert(out@ + src@ =~= orig);
            assert(chunks.skip(0) =~= chunks);
        }
        loop
            invariant
                out@ + src@ == orig,
                nchunks == chunks.len(),
                orig.len() <= usize::MAX,
                src.spec_chunks() == chunks.skip(i as int),
                i <= chunks.len(),
                forall|k: int|
                    0 <= k < chunks.len() && !#[trigger] chunks[k].spec_is_owned_or_static()
                        ==> chunks[k]@.len() + 12 <= 0xFFFF_FFFF,
                forall|k: int|
                    0 <= k < out.spec_chunks().len()
                        ==> #[trigger] out.spec_chunks()[k].spec_is_owned_or_static(),
            ensures
                out@ == orig,
                forall|k: int|
                    0 <= k < out.spec_chunks().len()
                        ==> #[trigger] out.spec_chunks()[k].spec_is_owned_or_static(),
            decreases src@.len(),
        {
            src.check_well_formed();
            match src.pop_front() {
                None => {
                    proof {
                        assert(src@ =~= Seq::<u8>::empty());
                        assert(out@ + src@ =~= out@);
                    }
                    break;
                },
                Some(d) => {
                    proof {
                        assert(chunks.skip(i as int)[0] == chunks[i as int]);
                        assert(chunks.skip(i as int).drop_first() =~= chunks.skip(i + 1));
                    }
                    let s = d.into_shared();
                    let ghost prev = out.spec_chunks();
                    out.push_back(s);
                    proof {
                        assert(out@ + src@ =~= orig);
                    }
                    i += 1;
                },
            }
        }
        out
    }

    /// Makes every chunk independent of borrowed data, in place. Borrowed chunks
    /// are copied into shared buffers, so each of them must fit in one.
    pub fn make_shared(&mut self)
        requires
            forall|i: int|
                0 <= i < old(self).spec_chunks().len()
                    && !#[trigger] old(self).spec_chunks()[i].spec_is_owned_or_static()
                    ==> old(self).spec_chunks()[i]@.len() + 12 <= 0xFFFF_FFFF,
        ensures
            final(self)@ == old(self)@,
            forall|i: int|
                0 <= i < final(self).spec_chunks().len()
                    ==> #[trigger] final(self).spec_chunks()[i].spec_is_owned_or_static(),
    {
        let mut taken = ByteQueue::new();
        core::mem::swap(self, &mut taken);
        *self = taken.into_shared();
    }
}

/// Checks that a queue holds exactly the given bytes.
pub fn is_same_as(data: &[u8], queue: &ByteQueue) -> (res: bool)
    ensures
        res == (queue@ == data@),
{
    if data.len() != queue.len() {
        return false;
    }
    let r = queue.exists_at(0, data);
    proof {
        assert(queue@.subrange(0, data@.len() as int) =~= queue@ ==> (r == (queue@ == data@)));
    }
    r
}

impl<'a> Clone for ByteQueue<'a> {
    fn clone(&self) -> (res: Self)
        ensures
            res@ == self@,
    {
        proof {
            use_type_invariant(self);
            lemma_chunk_start_end(self.queue@);
        }
        let n = self.queue.len();
        let mut out = ByteQueue::new();
        let mut i: usize = 0;
        while i < n
            invariant
                n == self.queue@.len(),
                i <= n,
                out@ == flat(self.queue@.take(i as int)),
                flat(self.queue@).len() <= usize::MAX,
            decreases n - i,
        {
            proof {
                lemma_flat_take(self.queue@, i as int);
                lemma_chunk_in_flat(self.queue@, i as int);
            }
            let c = self.queue[i].clone();
            out.push_back(c);
            i += 1;
        }
        proof {
            assert(self.queue@.take(n as int) =~= self.queue@);
        }
        out
    }
}

impl<'a> PartialEq for ByteQueue<'a> {
    fn eq(&self, other: &Self) -> (res: bool) {
        if self.len() != other.len() {
            return false;
        }
        let len = self.len();
        let mut k: usize = 0;
        while k < len
            invariant
                len == self@.len(),
                len == other@.len(),
                k <= len,
                forall|j: int| 0 <= j < k ==> self@[j] == other@[j],
            decreases len - k,
        {
            if self.get_byte(k) != other.get_byte(k) {
                return false;
            }
            k += 1;
        }
        proof {
            assert(self@ =~= other@);
        }
        true
    }
}

impl<'a> vstd::std_specs::cmp::PartialEqSpecImpl for ByteQueue<'a> {
    open spec fn obeys_eq_spec() -> bool {
        true
    }

    open spec fn eq_spec(&self, other: &Self) -> bool {
        self@ == other@
    }
}

impl<'a> Eq for ByteQueue<'a> {

}

impl<'a> Default for ByteQueue<'a> {
    fn default() -> (res: Self)
        ensures
            res@ == Seq::<u8>::empty(),
    {
        Self::new()
    }
}

impl<'a> From<ByteData<'a>> for ByteQueue<'a> {
    fn from(data: ByteData<'a>) -> (res: Self)
        ensures
            res@ == data@,
    {
        Self::with_item(data)
    }
}

impl<'a> vstd::std_specs::convert::FromSpecImpl<ByteData<'a>> for ByteQueue<'a> {
    open spec fn obeys_from_spec() -> bool {
        false
    }

    open spec fn from_spec(v: ByteData<'a>) -> Self {
        vstd::pervasive::arbitrary()
    }
}

impl<'a> From<&'a [u8]> for ByteQueue<'a> {
    fn from(data: &'a [u8]) -> (res: Self)
        ensures
            res@ == data@,
    {
        Self::with_item(ByteData::from_borrowed(data))
    }
}

impl<'a> vstd::std_specs::convert::FromSpecImpl<&'a [u8]> for ByteQueue<'a> {
    open spec fn obeys_from_spec() -> bool {
        false
    }

    open spec fn from_spec(v: &'a [u8]) -> Self {
        vstd::pervasive::arbitrary()
    }
}

impl<'a> From<Vec<u8>> for ByteQueue<'a> {
    fn from(data: Vec<u8>) -> (res: Self)
        ensures
            res@ == data@,
    {
        Self::with_item(ByteData::from(data))
    }
}

impl<'a> vstd::std_specs::convert::FromSpecImpl<Vec<u8>> for ByteQueue<'a> {
    open spec fn obeys_from_spec() -> bool {
        false
    }

    open spec fn from_spec(v: Vec<u8>) -> Self {
        vstd::pervasive::arbitrary()
    }
}

} // verus!
