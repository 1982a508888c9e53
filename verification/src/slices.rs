//! Helpers on byte slices and string slices: comparison, searching, slicing
//! and splitting.
use vstd::prelude::*;
use vstd::string::StringSliceAdditionalSpecFns;
use vstd::utf8::*;

verus! {

/// `needle` occurs in `haystack` starting at byte `pos`.
pub open spec fn occurs_at(haystack: Seq<u8>, needle: Seq<u8>, pos: int) -> bool {
    &&& 0 <= pos
    &&& pos + needle.len() <= haystack.len()
    &&& haystack.subrange(pos, pos + needle.len()) == needle
}

/// `pos` is the first position at which `needle` occurs in `haystack`.
pub open spec fn first_occurrence(haystack: Seq<u8>, needle: Seq<u8>, pos: int) -> bool {
    &&& occurs_at(haystack, needle, pos)
    &&& forall|q: int| 0 <= q < pos ==> !#[trigger] occurs_at(haystack, needle, q)
}

/// `needle` occurs nowhere in `haystack`.
pub open spec fn never_occurs(haystack: Seq<u8>, needle: Seq<u8>) -> bool {
    forall|q: int| !#[trigger] occurs_at(haystack, needle, q)
}

/// A byte below 128 in valid UTF-8 is followed by the start of a character.
pub proof fn lemma_utf8_after_ascii(d: Seq<u8>, k: int)
    requires
        valid_utf8(d),
        0 <= k,
        k + 1 < d.len(),
        d[k] < 0x80,
    ensures
        !is_continuation_byte(d[k + 1]),
{
    is_char_boundary_iff_not_is_continuation_byte(d, k);
    valid_utf8_split(d, k);
    let s = d.subrange(k, d.len() as int);
    assert(s[0] == d[k]);
    assert(valid_utf8(pop_first_scalar(s)));
    assert(pop_first_scalar(s) =~= d.subrange(k + 1, d.len() as int));
    lemma_utf8_first_not_continuation(pop_first_scalar(s));
    assert(pop_first_scalar(s)[0] == d[k + 1]);
}

/// Where a sequence occurs, it has a first occurrence.
pub proof fn lemma_find_first(haystack: Seq<u8>, needle: Seq<u8>, pos: int) -> (first: int)
    requires
        occurs_at(haystack, needle, pos),
    ensures
        first_occurrence(haystack, needle, first),
        first <= pos,
    decreases pos,
{
    if exists|q: int| 0 <= q < pos && #[trigger] occurs_at(haystack, needle, q) {
        let q = choose|q: int| 0 <= q < pos && #[trigger] occurs_at(haystack, needle, q);
        lemma_find_first(haystack, needle, q)
    } else {
        pos
    }
}

/// There is only one first occurrence at or after a position.
pub proof fn lemma_first_occurrence_from_unique(haystack: Seq<u8>, needle: Seq<u8>, pos: int)
    ensures
        forall|start: int, q: int|
            #![trigger crate::queue::byte_queue::first_occurrence_from(haystack, needle, start, q)]
            crate::queue::byte_queue::first_occurrence_from(haystack, needle, start, q)
                && crate::queue::byte_queue::first_occurrence_from(haystack, needle, start, pos)
                ==> q == pos,
{
    assert forall|start: int, q: int|
        crate::queue::byte_queue::first_occurrence_from(haystack, needle, start, q)
            && crate::queue::byte_queue::first_occurrence_from(
            haystack,
            needle,
            start,
            pos,
        ) implies q == pos by {
        if q < pos {
            assert(!occurs_at(haystack, needle, q));
        } else if q > pos {
            assert(!occurs_at(haystack, needle, pos));
        }
    }
}

/// There is only one first occurrence.
pub proof fn lemma_first_occurrence_unique(haystack: Seq<u8>, needle: Seq<u8>, pos: int)
    requires
        first_occurrence(haystack, needle, pos),
    ensures
        forall|q: int| #[trigger] first_occurrence(haystack, needle, q) ==> q == pos,
{
    assert forall|q: int| #[trigger] first_occurrence(haystack, needle, q) implies q == pos by {
        if q < pos {
            assert(!occurs_at(haystack, needle, q));
        } else if q > pos {
            assert(!occurs_at(haystack, needle, pos));
        }
    }
}

/// The byte sequences of a list of slices, one after the other.
pub open spec fn concat_slices(inputs: Seq<&[u8]>) -> Seq<u8> {
    inputs.map_values(|s: &[u8]| s@).flatten()
}

/// A first byte of a valid UTF-8 sequence is never a continuation byte.
pub proof fn lemma_utf8_first_not_continuation(bytes: Seq<u8>)
    requires
        valid_utf8(bytes),
        bytes.len() > 0,
    ensures
        !is_continuation_byte(bytes[0]),
{
}

/// Copies a byte slice into a new vector.
pub fn slice_to_vec(data: &[u8]) -> (res: Vec<u8>)
    ensures
        res@ == data@,
{
    vstd::slice::slice_to_vec(data)
}

/// Keeps only the bytes `off..off + len` of a vector, moving them to its front
/// within the same allocation.
pub fn vec_keep_range(v: Vec<u8>, off: usize, len: usize) -> (res: Vec<u8>)
    requires
        off + len <= v@.len(),
    ensures
        res@ == v@.subrange(off as int, off + len),
{
    let mut v = v;
    let ghost orig = v@;
    if off != 0 {
        let mut i: usize = 0;
        let n = v.len();
        while i < len
            invariant
                n == orig.len(),
                off + len <= orig.len(),
                v@.len() == orig.len(),
                i <= len,
                forall|k: int| 0 <= k < i ==> v@[k] == orig[off + k],
                forall|k: int| i <= k < orig.len() ==> v@[k] == orig[k],
            decreases len - i,
        {
            let b = v[off + i];
            v[i] = b;
            i += 1;
        }
    }
    v.truncate(len);
    assert(v@ =~= orig.subrange(off as int, off + len));
    v
}

/// Checks if two byte slices are equal.
/// This is however not a constant-time equality check, as it returns `false` as early as possible.
pub fn const_eq(a_val: &[u8], b_val: &[u8]) -> (res: bool)
    ensures
        res == (a_val@ == b_val@),
{
    if a_val.len() != b_val.len() {
        return false;
    }
    let mut i: usize = 0;
    while i < a_val.len()
        invariant
            a_val@.len() == b_val@.len(),
            i <= a_val@.len(),
            forall|k: int| 0 <= k < i ==> a_val@[k] == b_val@[k],
        decreases a_val@.len() - i,
    {
        if a_val[i] != b_val[i] {
            return false;
        }
        i += 1;
    }
    assert(a_val@ =~= b_val@);
    true
}

/// Check if a byte slice starts with another.
pub fn const_starts_with(haystack: &[u8], needle: &[u8]) -> (res: bool)
    ensures
        res == needle@.is_prefix_of(haystack@),
{
    if haystack.len() < needle.len() {
        return false;
    }
    let mut i: usize = 0;
    while i < needle.len()
        invariant
            needle@.len() <= haystack@.len(),
            i <= needle@.len(),
            forall|k: int| 0 <= k < i ==> haystack@[k] == needle@[k],
        decreases needle@.len() - i,
    {
        if haystack[i] != needle[i] {
            assert(haystack@.subrange(0, needle@.len() as int)[i as int] != needle@[i as int]);
            return false;
        }
        i += 1;
    }
    assert(needle@ =~= haystack@.subrange(0, needle@.len() as int));
    true
}

/// Check if a byte slice ends with another.
pub fn const_ends_with(haystack: &[u8], needle: &[u8]) -> (res: bool)
    ensures
        res == needle@.is_suffix_of(haystack@),
{
    let len = needle.len();
    if haystack.len() < len {
        return false;
    }
    let offs = haystack.len() - len;
    let mut i: usize = 0;
    while i < len
        invariant
            len == needle@.len(),
            offs + len == haystack@.len(),
            haystack@.len() == haystack.len(),
            i <= len,
            forall|k: int| 0 <= k < i ==> haystack@[offs + k] == needle@[k],
        decreases len - i,
    {
        if haystack[offs + i] != needle[i] {
            assert(haystack@.subrange(offs as int, haystack@.len() as int)[i as int]
                != needle@[i as int]);
            return false;
        }
        i += 1;
    }
    assert(needle@ =~= haystack@.subrange(offs as int, haystack@.len() as int));
    true
}

/// Slices a byte slice, returning `None` where the range does not fit in it.
/// Can be used in place of `slice::get` or brackets (such as in `b[1..4]`).
pub fn const_slice(data: &[u8], range: core::ops::Range<usize>) -> (res: Option<&[u8]>)
    ensures
        res is Some <==> range.start <= range.end <= data@.len(),
        res is Some ==> res->0@ == data@.subrange(range.start as int, range.end as int),
{
    let start = range.start;
    let end = range.end;
    if start > end || end > data.len() {
        return None;
    }
    Some(&data[start..end])
}

/// The different states that can occur when slicing a `str`.
#[derive(Debug, Clone, Copy, PartialEq, Eq)]
pub enum StrSliceResult<'a> {
    /// The slicing operation resulted in a valid subslice.
    Success(&'a str),
    /// The slice would cause the result to be out of bounds of the original `str`.
    OutOfBounds,
    /// The slice would cause the result to be split on a UTF-8 char boundary.
    InvalidUtf8,
}

impl<'a> StrSliceResult<'a> {
    /// Returns the sliced `str` if the slice was valid.
    pub fn ok(self) -> (res: Option<&'a str>)
        ensures
            match self {
                StrSliceResult::Success(st) => res == Some(st),
                _ => res is None,
            },
    {
        match self {
            StrSliceResult::Success(st) => Some(st),
            StrSliceResult::OutOfBounds | StrSliceResult::InvalidUtf8 => None,
        }
    }

    /// Returns the sliced `str`; the slice must have been valid.
    pub fn unwrap(self) -> (res: &'a str)
        requires
            self is Success,
        ensures
            self == StrSliceResult::Success(res),
    {
        match self {
            StrSliceResult::Success(st) => st,
            StrSliceResult::OutOfBounds | StrSliceResult::InvalidUtf8 => {
                proof {
                    assert(false);
                }
                ""
            },
        }
    }

    /// Returns the error if the slice was invalid.
    pub fn err(self) -> (res: Option<Self>)
        ensures
            self is Success ==> res is None,
            !(self is Success) ==> res == Some(self),
    {
        match self {
            StrSliceResult::Success(_) => None,
            StrSliceResult::OutOfBounds | StrSliceResult::InvalidUtf8 => Some(self),
        }
    }

    /// Checks if the slice was valid.
    pub fn is_ok(&self) -> (res: bool)
        ensures
            res == (*self is Success),
    {
        matches!(*self, StrSliceResult::Success(_))
    }

    /// Checks if the slice was invalid.
    pub fn is_err(&self) -> (res: bool)
        ensures
            res == !(*self is Success),
    {
        !matches!(*self, StrSliceResult::Success(_))
    }
}

/// Slices a `str` by byte positions.
/// Can be used in place of `str::get` or brackets (such as in `s[1..4]`).
pub fn const_slice_str(data: &str, range: core::ops::Range<usize>) -> (res: StrSliceResult<'_>)
    ensures
        !(range.start <= range.end <= data.spec_bytes().len()) <==> res is OutOfBounds,
        res is InvalidUtf8 <==> (range.start <= range.end <= data.spec_bytes().len() && !(
        is_char_boundary(data.spec_bytes(), range.start as int) && is_char_boundary(
            data.spec_bytes(),
            range.end as int,
        ))),
        res matches StrSliceResult::Success(s) ==> s.spec_bytes() == data.spec_bytes().subrange(
            range.start as int,
            range.end as int,
        ),
{
    let bytes = data.as_bytes();
    let start = range.start;
    let end = range.end;
    if start > end || end > bytes.len() {
        return StrSliceResult::OutOfBounds;
    }
    proof {
        let b = data.spec_bytes();
        encode_utf8_valid_utf8(data@);
        is_char_boundary_start_end_of_seq(b);
        if start < b.len() {
            is_char_boundary_iff_not_is_continuation_byte(b, start as int);
        }
        if end < b.len() {
            is_char_boundary_iff_not_is_continuation_byte(b, end as int);
        }
        if start < b.len() {
            utf8_byte_ranges_bitwise(b[start as int]);
        }
        if end < b.len() {
            utf8_byte_ranges_bitwise(b[end as int]);
        }
    }
    if start != 0 && start < bytes.len() && bytes[start] & 0b1100_0000 == 0b1000_0000 {
        return StrSliceResult::InvalidUtf8;
    }
    if end != bytes.len() && bytes[end] & 0b1100_0000 == 0b1000_0000 {
        return StrSliceResult::InvalidUtf8;
    }
    let (_, rest) = data.split_at(start);
    proof {
        let b = data.spec_bytes();
        encode_utf8_valid_utf8(data@);
        valid_utf8_split(b, start as int);
        let r = b.subrange(start as int, b.len() as int);
        assert(rest.spec_bytes() == r);
        let k = (end - start) as int;
        if k < r.len() {
            assert(r[k] == b[end as int]);
            is_char_boundary_iff_not_is_continuation_byte(r, k);
        } else {
            is_char_boundary_start_end_of_seq(r);
        }
    }
    let (mid, _) = rest.split_at(end - start);
    proof {
        let b = data.spec_bytes();
        assert(mid.spec_bytes() =~= b.subrange(start as int, end as int));
    }
    StrSliceResult::Success(mid)
}

/// Returns `value` where it is some, `default` where it is none.
pub fn const_or_str<'a>(value: Option<&'a str>, default: &'a str) -> (res: &'a str)
    ensures
        res == match value {
            Some(v) => v,
            None => default,
        },
{
    match value {
        Some(value) => value,
        None => default,
    }
}

/// Returns `value` where it is some, `default` where it is none.
pub fn const_or_bytes<'a>(value: Option<&'a [u8]>, default: &'a [u8]) -> (res: &'a [u8])
    ensures
        res == match value {
            Some(v) => v,
            None => default,
        },
{
    match value {
        Some(value) => value,
        None => default,
    }
}

/// Copies the given slices one after the other into the front of `data`,
/// returning the array and the number of bytes written.
/// The array must be large enough to hold all of them.
pub fn build_const_bytes<const N: usize>(data: [u8; N], inputs: &[&[u8]]) -> (res: ([u8; N], usize))
    requires
        concat_slices(inputs@).len() <= N,
    ensures
        res.1 == concat_slices(inputs@).len(),
        res.0@.subrange(0, res.1 as int) == concat_slices(inputs@),
        res.0@.subrange(res.1 as int, N as int) == data@.subrange(res.1 as int, N as int),
{
    let ghost views = inputs@.map_values(|s: &[u8]| s@);
    let mut data = data;
    let ghost orig = data@;
    let mut pos: usize = 0;
    let mut i: usize = 0;
    proof {
        lemma_flatten_prefix_len(views, 0, views.len() as int);
    }
    while i < inputs.len()
        invariant
            views == inputs@.map_values(|s: &[u8]| s@),
            views.flatten().len() <= N,
            data@.len() == N,
            orig.len() == N,
            i <= inputs@.len(),
            pos == views.take(i as int).flatten().len(),
            data@.subrange(0, pos as int) == views.take(i as int).flatten(),
            data@.subrange(pos as int, N as int) == orig.subrange(pos as int, N as int),
        decreases inputs@.len() - i,
    {
        let input = inputs[i];
        proof {
            assert(views.take(i + 1) == views.take(i as int).push(input@));
            views.take(i as int).lemma_flatten_push(input@);
            lemma_flatten_prefix_len(views, i + 1, views.len() as int);
        }
        let mut j: usize = 0;
        while j < input.len()
            invariant
                views == inputs@.map_values(|s: &[u8]| s@),
                data@.len() == N,
                orig.len() == N,
                i < inputs@.len(),
                input == inputs@[i as int],
                j <= input@.len(),
                pos + input@.len() - j <= N,
                pos >= j,
                views.take(i + 1).flatten() == views.take(i as int).flatten() + input@,
                views.take(i as int).flatten().len() == pos - j,
                data@.subrange(0, pos as int) == views.take(i as int).flatten() + input@.take(
                    j as int,
                ),
                data@.subrange(pos as int, N as int) == orig.subrange(pos as int, N as int),
            decreases input@.len() - j,
        {
            let ghost before = data@;
            data[pos] = input[j];
            proof {
                assert(input@.take(j + 1) == input@.take(j as int).push(input@[j as int]));
                assert(data@.subrange(0, pos + 1) =~= before.subrange(0, pos as int).push(
                    input@[j as int],
                ));
                assert(data@.subrange(pos + 1, N as int) =~= before.subrange(pos + 1, N as int));
                assert(before.subrange(pos + 1, N as int) =~= before.subrange(
                    pos as int,
                    N as int,
                ).subrange(1, N - pos));
            }
            pos += 1;
            j += 1;
        }
        proof {
            assert(input@.take(j as int) =~= input@);
        }
        i += 1;
    }
    proof {
        assert(views.take(i as int) =~= views);
    }
    (data, pos)
}

/// The flattened prefix of a sequence of byte sequences is no longer than the whole.
proof fn lemma_flatten_prefix_len(views: Seq<Seq<u8>>, i: int, n: int)
    requires
        0 <= i <= n,
        n == views.len(),
    ensures
        views.take(i).flatten().len() <= views.flatten().len(),
    decreases n - i,
{
    if i < n {
        lemma_flatten_prefix_len(views, i + 1, n);
        assert(views.take(i + 1) == views.take(i).push(views[i]));
        views.take(i).lemma_flatten_push(views[i]);
    } else {
        assert(views.take(i) =~= views);
    }
}

/// Splits a byte slice before the first occurrence of `needle`.
/// The matching byte stays at the front of the second part.
pub fn const_split_once_byte(haystack: &[u8], needle: u8) -> (res: Option<(&[u8], &[u8])>)
    ensures
        res is None <==> !haystack@.contains(needle),
        res matches Some((a, b)) ==> {
            &&& a@ + b@ == haystack@
            &&& b@.len() > 0
            &&& b@[0] == needle
            &&& !a@.contains(needle)
        },
{
    let mut pos: usize = 0;
    while pos < haystack.len()
        invariant
            pos <= haystack@.len(),
            forall|k: int| 0 <= k < pos ==> haystack@[k] != needle,
        decreases haystack@.len() - pos,
    {
        if haystack[pos] == needle {
            let av = const_or_bytes(const_slice(haystack, 0..pos), &[]);
            let bv = const_or_bytes(const_slice(haystack, pos..haystack.len()), &[]);
            proof {
                assert(av@ + bv@ =~= haystack@);
                assert(!av@.contains(needle)) by {
                    if av@.contains(needle) {
                        let k = choose|k: int| 0 <= k < av@.len() && av@[k] == needle;
                        assert(haystack@[k] == needle);
                    }
                }
            }
            return Some((av, bv));
        }
        pos += 1;
    }
    proof {
        assert(!haystack@.contains(needle)) by {
            if haystack@.contains(needle) {
                let k = choose|k: int| 0 <= k < haystack@.len() && haystack@[k] == needle;
                assert(haystack@[k] != needle);
            }
        }
    }
    None
}

/// Finds the first position of a subsequence of bytes.
/// Time complexity `O(n*m)`.
pub fn const_find_bytes(haystack: &[u8], needle: &[u8]) -> (res: Option<usize>)
    ensures
        match res {
            Some(p) => first_occurrence(haystack@, needle@, p as int),
            None => never_occurs(haystack@, needle@),
        },
{
    if needle.len() > haystack.len() {
        return None;
    }
    let max_start = haystack.len() - needle.len();
    let mut pos: usize = 0;
    loop
        invariant
            needle@.len() <= haystack@.len(),
            max_start == haystack@.len() - needle@.len(),
            haystack@.len() == haystack.len(),
            pos <= max_start,
            forall|q: int| 0 <= q < pos ==> !#[trigger] occurs_at(haystack@, needle@, q),
        decreases max_start - pos,
    {
        let hs = &haystack[pos..pos + needle.len()];
        if const_eq(hs, needle) {
            return Some(pos);
        }
        if pos == max_start {
            return None;
        }
        pos += 1;
    }
}

/// Splits a byte slice before the first occurrence of `needle`.
/// The matching bytes stay at the front of the second part.
/// Time complexity `O(n*m)`.
pub fn const_split_once_bytes<'a>(haystack: &'a [u8], needle: &[u8]) -> (res: Option<
    (&'a [u8], &'a [u8]),
>)
    ensures
        res is None <==> never_occurs(haystack@, needle@),
        res matches Some((a, b)) ==> {
            &&& a@ + b@ == haystack@
            &&& first_occurrence(haystack@, needle@, a@.len() as int)
        },
{
    match const_find_bytes(haystack, needle) {
        None => None,
        Some(pos) => {
            let av = &haystack[0..pos];
            let hs = &haystack[pos..haystack.len()];
            proof {
                assert(av@ + hs@ =~= haystack@);
            }
            Some((av, hs))
        },
    }
}

/// Splits a `str` before the first occurrence of `needle`.
/// The matching text stays at the front of the second part.
/// Time complexity `O(n*m)`.
pub fn const_split_once_str<'a>(haystack: &'a str, needle: &str) -> (res: Option<(&'a str, &'a str)>)
    ensures
        res is None <==> never_occurs(haystack.spec_bytes(), needle.spec_bytes()),
        res matches Some((a, b)) ==> {
            &&& a.spec_bytes() + b.spec_bytes() == haystack.spec_bytes()
            &&& first_occurrence(
                haystack.spec_bytes(),
                needle.spec_bytes(),
                a.spec_bytes().len() as int,
            )
        },
{
    let hb = haystack.as_bytes();
    let nb = needle.as_bytes();
    match const_find_bytes(hb, nb) {
        None => None,
        Some(pos) => {
            proof {
                let h = haystack.spec_bytes();
                let n = needle.spec_bytes();
                encode_utf8_valid_utf8(haystack@);
                encode_utf8_valid_utf8(needle@);
                is_char_boundary_start_end_of_seq(h);
                if n.len() > 0 {
                    lemma_utf8_first_not_continuation(n);
                    assert(h[pos as int] == h.subrange(pos as int, pos + n.len())[0]);
                    is_char_boundary_iff_not_is_continuation_byte(h, pos as int);
                } else if pos > 0 {
                    assert(h.subrange(0, 0) =~= n);
                    assert(occurs_at(h, n, 0));
                }
            }
            let (av, bv) = haystack.split_at(pos);
            proof {
                let h = haystack.spec_bytes();
                assert(av.spec_bytes() + bv.spec_bytes() =~= h);
            }
            Some((av, bv))
        },
    }
}

} // verus!
