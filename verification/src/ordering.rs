//! Lexicographic order of the bytes that the containers hold, whatever their
//! representation or chunking.
use core::cmp::Ordering;
use vstd::prelude::*;

use crate::bytedata::ByteData;
use crate::queue::byte_queue::{flat, lemma_flat_push_front, ByteQueue};
use crate::queue::string_queue::StringQueue;
use crate::shared_bytes::SharedBytes;
use crate::stringdata::StringData;

verus! {

/// The lexicographic order of two byte strings: -1 where `a` comes first, 0
/// where they are equal, 1 where `b` comes first.
pub open spec fn lex_order(a: Seq<u8>, b: Seq<u8>) -> int
    decreases a.len(),
{
    if a.len() == 0 {
        if b.len() == 0 {
            0
        } else {
            -1
        }
    } else if b.len() == 0 {
        1
    } else if a[0] < b[0] {
        -1
    } else if a[0] > b[0] {
        1
    } else {
        lex_order(a.drop_first(), b.drop_first())
    }
}

/// The `Ordering` that stands for -1, 0 or 1.
pub open spec fn ordering_of(i: int) -> Ordering {
    if i < 0 {
        Ordering::Less
    } else if i == 0 {
        Ordering::Equal
    } else {
        Ordering::Greater
    }
}

/// A common prefix does not change the order.
pub proof fn lemma_lex_common_prefix(p: Seq<u8>, x: Seq<u8>, y: Seq<u8>)
    ensures
        lex_order(p + x, p + y) == lex_order(x, y),
    decreases p.len(),
{
    if p.len() == 0 {
        assert(p + x =~= x);
        assert(p + y =~= y);
    } else {
        assert((p + x).drop_first() =~= p.drop_first() + x);
        assert((p + y).drop_first() =~= p.drop_first() + y);
        lemma_lex_common_prefix(p.drop_first(), x, y);
    }
}

/// Where two byte strings first differ at a position both hold, the bytes
/// there decide the order.
proof fn lemma_lex_first_difference(a: Seq<u8>, b: Seq<u8>, d: usize)
    requires
        d < a.len(),
        d < b.len(),
        a.take(d as int) == b.take(d as int),
        a[d as int] != b[d as int],
    ensures
        lex_order(a, b) == if a[d as int] < b[d as int] {
            -1int
        } else {
            1int
        },
{
    let p = a.take(d as int);
    assert(a =~= p + a.skip(d as int));
    assert(b =~= p + b.skip(d as int));
    lemma_lex_common_prefix(p, a.skip(d as int), b.skip(d as int));
}

/// Where one byte string is a prefix of the other, the shorter comes first.
proof fn lemma_lex_prefix(a: Seq<u8>, b: Seq<u8>, l: usize)
    requires
        l == a.len() || l == b.len(),
        l <= a.len(),
        l <= b.len(),
        a.take(l as int) == b.take(l as int),
    ensures
        lex_order(a, b) == if a.len() < b.len() {
            -1int
        } else if a.len() == b.len() {
            0int
        } else {
            1int
        },
{
    let p = a.take(l as int);
    assert(a =~= p + a.skip(l as int));
    assert(b =~= p + b.skip(l as int));
    lemma_lex_common_prefix(p, a.skip(l as int), b.skip(l as int));
}

/// The first position below `l` where the two slices differ; `l` where they
/// agree on all of them.
fn first_difference(a: &[u8], b: &[u8], l: usize) -> (res: usize)
    requires
        l <= a@.len(),
        l <= b@.len(),
    ensures
        res <= l,
        a@.take(res as int) == b@.take(res as int),
        res < l ==> a@[res as int] != b@[res as int],
{
    let mut i: usize = 0;
    while i < l
        invariant
            i <= l,
            l <= a@.len(),
            l <= b@.len(),
            a@.take(i as int) == b@.take(i as int),
        decreases l - i,
    {
        if a[i] != b[i] {
            return i;
        }
        proof {
            assert(a@.take(i + 1) =~= a@.take(i as int).push(a@[i as int]));
            assert(b@.take(i + 1) =~= b@.take(i as int).push(b@[i as int]));
        }
        i += 1;
    }
    i
}

/// Steps two runs of bytes past a common prefix of `l` bytes.
proof fn lemma_lex_skip_common(a: Seq<u8>, b: Seq<u8>, l: usize)
    requires
        l <= a.len(),
        l <= b.len(),
        a.take(l as int) == b.take(l as int),
    ensures
        lex_order(a, b) == lex_order(a.skip(l as int), b.skip(l as int)),
{
    let p = a.take(l as int);
    assert(a =~= p + a.skip(l as int));
    assert(b =~= p + b.skip(l as int));
    lemma_lex_common_prefix(p, a.skip(l as int), b.skip(l as int));
}

/// Compares two byte slices lexicographically.
pub fn compare_slices(a: &[u8], b: &[u8]) -> (res: Ordering)
    ensures
        res == ordering_of(lex_order(a@, b@)),
{
    let l = if a.len() < b.len() {
        a.len()
    } else {
        b.len()
    };
    let d = first_difference(a, b, l);
    if d < l {
        proof {
            lemma_lex_first_difference(a@, b@, d);
        }
        if a[d] < b[d] {
            Ordering::Less
        } else {
            Ordering::Greater
        }
    } else {
        proof {
            lemma_lex_prefix(a@, b@, l);
        }
        if a.len() < b.len() {
            Ordering::Less
        } else if a.len() == b.len() {
            Ordering::Equal
        } else {
            Ordering::Greater
        }
    }
}

/// The bytes of the chunks from `i` on.
proof fn lemma_rest_of_chunks<'a>(s: Seq<ByteData<'a>>, i: usize)
    requires
        i < s.len(),
    ensures
        flat(s.subrange(i as int, s.len() as int)) == s[i as int]@ + flat(
            s.subrange(i + 1, s.len() as int),
        ),
        i + 1 == s.len() ==> flat(s.subrange(i + 1, s.len() as int)) == Seq::<u8>::empty(),
{
    lemma_flat_push_front(s.subrange(i + 1, s.len() as int), s[i as int]);
    assert(seq![s[i as int]] + s.subrange(i + 1, s.len() as int) =~= s.subrange(
        i as int,
        s.len() as int,
    ));
    if i + 1 == s.len() {
        assert(s.subrange(i + 1, s.len() as int) =~= Seq::<ByteData<'a>>::empty());
        assert(flat(Seq::<ByteData<'a>>::empty()) =~= Seq::<u8>::empty());
    }
}

/// All of the chunks, as the bytes from chunk zero on.
proof fn lemma_all_chunks<'a>(s: Seq<ByteData<'a>>)
    ensures
        flat(s.subrange(0, s.len() as int)) == flat(s),
        flat(s.subrange(s.len() as int, s.len() as int)) == Seq::<u8>::empty(),
{
    assert(s.subrange(0, s.len() as int) =~= s);
    assert(s.subrange(s.len() as int, s.len() as int) =~= Seq::<ByteData<'a>>::empty());
    assert(flat(Seq::<ByteData<'a>>::empty()) =~= Seq::<u8>::empty());
}

/// Moves on to the next chunk where the current one is used up.
fn refill<'a>(
    q: &ByteQueue<'a>,
    cur: &mut ByteData<'a>,
    i: &mut usize,
    rest: Ghost<Seq<u8>>,
)
    requires
        *old(i) <= q.spec_chunks().len(),
        rest@ == old(cur)@ + flat(q.spec_chunks().subrange(*old(i) as int, q.spec_chunks().len() as int)),
        forall|j: int| 0 <= j < q.spec_chunks().len() ==> #[trigger] q.spec_chunks()[j]@.len() > 0,
    ensures
        *final(i) <= q.spec_chunks().len(),
        rest@ == final(cur)@ + flat(q.spec_chunks().subrange(*final(i) as int, q.spec_chunks().len() as int)),
        final(cur)@.len() == 0 ==> rest@.len() == 0,
{
    let n = q.chunk_len();
    if cur.is_empty() {
        if *i < n {
            proof {
                lemma_rest_of_chunks(q.spec_chunks(), *i);
            }
            *cur = q.chunk_at(*i).clone();
            *i = *i + 1;
            proof {
                assert(rest@ =~= cur@ + flat(q.spec_chunks().subrange(*i as int, q.spec_chunks().len() as int)));
            }
        } else {
            proof {
                lemma_all_chunks(q.spec_chunks());
                assert(rest@ =~= cur@);
            }
        }
    }
}

/// One step of comparing two runs of bytes that continue with `rest_a` and
/// `rest_b`: where the first `l` bytes differ, the first difference decides;
/// where they agree, the order is that of what follows them.
proof fn lemma_run_step(
    ra: Seq<u8>,
    rb: Seq<u8>,
    rest_a: Seq<u8>,
    rest_b: Seq<u8>,
    d: usize,
    l: usize,
)
    requires
        l <= ra.len(),
        l <= rb.len(),
        d <= l,
        ra.take(d as int) == rb.take(d as int),
        d < l ==> ra[d as int] != rb[d as int],
    ensures
        d < l ==> lex_order(ra + rest_a, rb + rest_b) == if ra[d as int] < rb[d as int] {
            -1int
        } else {
            1int
        },
        d == l ==> lex_order(ra + rest_a, rb + rest_b) == lex_order(
            ra.skip(l as int) + rest_a,
            rb.skip(l as int) + rest_b,
        ),
{
    let a = ra + rest_a;
    let b = rb + rest_b;
    assert(a.take(d as int) =~= ra.take(d as int));
    assert(b.take(d as int) =~= rb.take(d as int));
    if d < l {
        assert(a[d as int] == ra[d as int]);
        assert(b[d as int] == rb[d as int]);
        lemma_lex_first_difference(a, b, d);
    } else {
        lemma_lex_skip_common(a, b, l);
        assert(a.skip(l as int) =~= ra.skip(l as int) + rest_a);
        assert(b.skip(l as int) =~= rb.skip(l as int) + rest_b);
    }
}

/// The lexicographic order of the bytes of two queues, walking their chunks
/// side by side.
fn queue_order<'x, 'y>(qa: &ByteQueue<'x>, qb: &ByteQueue<'y>) -> (res: i8)
    ensures
        res == lex_order(qa@, qb@),
{
    qa.check_well_formed();
    qb.check_well_formed();
    let mut ra = ByteData::empty();
    let mut rb = ByteData::empty();
    let mut ai: usize = 0;
    let mut bi: usize = 0;
    let ghost sa = qa.spec_chunks();
    let ghost sb = qb.spec_chunks();
    let ghost mut ga = qa@;
    let ghost mut gb = qb@;
    proof {
        lemma_all_chunks(sa);
        lemma_all_chunks(sb);
        assert(ga =~= ra@ + flat(sa.subrange(0, sa.len() as int)));
        assert(gb =~= rb@ + flat(sb.subrange(0, sb.len() as int)));
    }
    loop
        invariant
            sa == qa.spec_chunks(),
            sb == qb.spec_chunks(),
            forall|j: int| 0 <= j < sa.len() ==> #[trigger] sa[j]@.len() > 0,
            forall|j: int| 0 <= j < sb.len() ==> #[trigger] sb[j]@.len() > 0,
            ai <= sa.len(),
            bi <= sb.len(),
            ga == ra@ + flat(sa.subrange(ai as int, sa.len() as int)),
            gb == rb@ + flat(sb.subrange(bi as int, sb.len() as int)),
            lex_order(qa@, qb@) == lex_order(ga, gb),
        decreases ga.len(),
    {
        refill(qa, &mut ra, &mut ai, Ghost(ga));
        refill(qb, &mut rb, &mut bi, Ghost(gb));
        let la = ra.len();
        let lb = rb.len();
        if la == 0 || lb == 0 {
            proof {
                reveal_with_fuel(lex_order, 2);
            }
            if la == 0 && lb == 0 {
                return 0;
            } else if la == 0 {
                return -1;
            } else {
                return 1;
            }
        }
        let l = if la < lb {
            la
        } else {
            lb
        };
        let d = first_difference(ra.as_slice(), rb.as_slice(), l);
        let ghost rest_a = flat(sa.subrange(ai as int, sa.len() as int));
        let ghost rest_b = flat(sb.subrange(bi as int, sb.len() as int));
        proof {
            lemma_run_step(ra@, rb@, rest_a, rest_b, d, l);
        }
        if d < l {
            if ra.as_slice()[d] < rb.as_slice()[d] {
                return -1;
            } else {
                return 1;
            }
        }
        ra.make_sliced(l..la);
        rb.make_sliced(l..lb);
        proof {
            ga = ra@ + rest_a;
            gb = rb@ + rest_b;
        }
    }
}

/// The `Ordering` that a sign stands for.
pub open spec fn ordering_of_sign(r: i8) -> Ordering {
    if r < 0 {
        Ordering::Less
    } else if r == 0 {
        Ordering::Equal
    } else {
        Ordering::Greater
    }
}

/// The `Ordering` that a sign stands for.
fn ordering_from_sign(r: i8) -> (res: Ordering)
    ensures
        res == ordering_of_sign(r),
{
    if r < 0 {
        Ordering::Less
    } else if r == 0 {
        Ordering::Equal
    } else {
        Ordering::Greater
    }
}

impl<'a> ByteQueue<'a> {
    /// Compares the bytes of two queues lexicographically, chunk by chunk.
    pub fn cmp(&self, other: &ByteQueue<'_>) -> (res: Ordering)
        ensures
            res == ordering_of(lex_order(self@, other@)),
    {
        ordering_from_sign(queue_order(self, other))
    }

    /// Compares the bytes of two queues lexicographically; the order is total.
    pub fn partial_cmp(&self, other: &ByteQueue<'_>) -> (res: Option<Ordering>)
        ensures
            res == Some(ordering_of(lex_order(self@, other@))),
    {
        Some(self.cmp(other))
    }

    /// Compares the bytes of the queue with a byte slice lexicographically.
    pub fn partial_cmp_slice(&self, other: &[u8]) -> (res: Option<Ordering>)
        ensures
            res == Some(ordering_of(lex_order(self@, other@))),
    {
        let q = ByteQueue::with_item(ByteData::from_borrowed(other));
        Some(self.cmp(&q))
    }
}

impl<'a> ByteData<'a> {
    /// Compares the bytes of two `ByteData` lexicographically.
    pub fn cmp(&self, other: &ByteData<'_>) -> (res: Ordering)
        ensures
            res == ordering_of(lex_order(self@, other@)),
    {
        compare_slices(self.as_slice(), other.as_slice())
    }

    /// Compares the bytes of two `ByteData` lexicographically; the order is total.
    pub fn partial_cmp(&self, other: &ByteData<'_>) -> (res: Option<Ordering>)
        ensures
            res == Some(ordering_of(lex_order(self@, other@))),
    {
        Some(compare_slices(self.as_slice(), other.as_slice()))
    }

    /// Compares the bytes with a byte slice lexicographically.
    pub fn partial_cmp_slice(&self, other: &[u8]) -> (res: Option<Ordering>)
        ensures
            res == Some(ordering_of(lex_order(self@, other@))),
    {
        Some(compare_slices(self.as_slice(), other))
    }
}

impl SharedBytes {
    /// Compares the bytes of two `SharedBytes` lexicographically; the order is total.
    pub fn partial_cmp(&self, other: &SharedBytes) -> (res: Option<Ordering>)
        ensures
            res == Some(ordering_of(lex_order(self@, other@))),
    {
        Some(compare_slices(self.as_slice(), other.as_slice()))
    }

    /// Compares the bytes with a byte slice lexicographically.
    pub fn partial_cmp_slice(&self, other: &[u8]) -> (res: Option<Ordering>)
        ensures
            res == Some(ordering_of(lex_order(self@, other@))),
    {
        Some(compare_slices(self.as_slice(), other))
    }
}

impl<'a> StringData<'a> {
    /// Compares two texts by their UTF-8 bytes, which orders them as their
    /// characters; the order is total.
    pub fn partial_cmp(&self, other: &StringData<'_>) -> (res: Option<Ordering>)
        ensures
            res == Some(ordering_of(lex_order(self@, other@))),
    {
        Some(compare_slices(self.as_bytes(), other.as_bytes()))
    }
}

impl<'a> StringQueue<'a> {
    /// Compares two queues of text by their UTF-8 bytes.
    pub fn cmp(&self, other: &StringQueue<'_>) -> (res: Ordering)
        ensures
            res == ordering_of(lex_order(self@, other@)),
    {
        self.as_bytequeue().cmp(other.as_bytequeue())
    }

    /// Compares two queues of text by their UTF-8 bytes; the order is total.
    pub fn partial_cmp(&self, other: &StringQueue<'_>) -> (res: Option<Ordering>)
        ensures
            res == Some(ordering_of(lex_order(self@, other@))),
    {
        Some(self.cmp(other))
    }
}

} // verus!
