//! The containers as input to a parser: comparing a prefix, splitting where a
//! byte or character predicate first holds, locating a count of items,
//! finding a token, and dumping bytes as hexadecimal.
use vstd::prelude::*;
use vstd::string::StringSliceAdditionalSpecFns;
use vstd::utf8::*;

use crate::byte_string_render::{ascii_to_string, hex_digit_lower, hex_lower};
use crate::bytedata::ByteData;
use crate::char_indices::{lemma_decode_concat, lemma_first_scalar_alone, next_char};
use crate::queue::byte_queue::{
    chunk_start, flat, lemma_chunk_in_flat, lemma_chunk_start_end, ByteQueue,
};
use crate::queue::string_queue::{is_boundary, StringQueue};
use crate::slices::lemma_utf8_first_not_continuation;
use crate::stringdata::{all_chars, lemma_split_decode, prefix_until, string_bytes, StringData};

verus! {

/// How the start of an input compares with an expected value.
#[derive(Clone, Copy, Debug, PartialEq, Eq, Structural)]
pub enum CompareResult {
    /// The input starts with the whole expected value.
    Matches,
    /// The input agrees with the start of the expected value but is shorter:
    /// more input is needed.
    Incomplete,
    /// The input and the expected value differ.
    Differs,
}

/// ASCII upper-case letters made lower-case; any other byte is kept.
pub open spec fn lower_ascii(c: u8) -> u8 {
    if 0x41 <= c <= 0x5a {
        (c + 0x20) as u8
    } else {
        c
    }
}

/// Two bytes are alike, exactly or ignoring ASCII case.
pub open spec fn bytes_agree(a: u8, b: u8, no_case: bool) -> bool {
    if no_case {
        lower_ascii(a) == lower_ascii(b)
    } else {
        a == b
    }
}

/// The first `n` bytes of `a` and `t` are pairwise alike.
pub open spec fn agree_up_to(a: Seq<u8>, t: Seq<u8>, n: int, no_case: bool) -> bool {
    forall|i: int| 0 <= i < n ==> #[trigger] bytes_agree(a[i], t[i], no_case)
}

/// The smaller of two lengths.
pub open spec fn min_len(a: int, b: int) -> int {
    if a < b {
        a
    } else {
        b
    }
}

/// Comparing input `a` with expected `t`: an error where the bytes that both
/// have differ, otherwise a match where `a` is at least as long as `t`.
pub open spec fn compare_bytes(a: Seq<u8>, t: Seq<u8>, no_case: bool) -> CompareResult {
    if !agree_up_to(a, t, min_len(a.len() as int, t.len() as int), no_case) {
        CompareResult::Differs
    } else if a.len() >= t.len() {
        CompareResult::Matches
    } else {
        CompareResult::Incomplete
    }
}

/// Why an input could not be split where a predicate first holds.
#[derive(Clone, Copy, Debug, PartialEq, Eq, Structural)]
pub enum SplitError {
    /// No item met the predicate: more input might hold one.
    Incomplete,
    /// The predicate held at the first item, where at least one item must be taken.
    Failure,
}

/// How much more input a request needs.
#[derive(Clone, Copy, Debug, PartialEq, Eq, Structural)]
pub enum Needed {
    /// More is needed, how much is not known.
    Unknown,
    /// This many more bytes are needed.
    Size(usize),
}

/// Where `count` bytes end in an input of `len` bytes, or how many are missing.
pub open spec fn byte_index(len: int, count: int) -> Result<usize, Needed> {
    if count <= len {
        Ok(count as usize)
    } else {
        Err(Needed::Size((count - len) as usize))
    }
}

/// The byte offset at which `count` bytes end, or how many more bytes are needed.
fn byte_index_of(len: usize, count: usize) -> (res: Result<usize, Needed>)
    ensures
        res == byte_index(len as int, count as int),
{
    if len >= count {
        Ok(count)
    } else {
        Err(Needed::Size(count - len))
    }
}

/// `taken` and then `rest` make up `d`; no byte of `taken` meets `f`, and the
/// first byte of `rest`, where there is one, does.
pub open spec fn split_bytes_where<F: Fn(u8) -> bool>(
    f: F,
    d: Seq<u8>,
    taken: Seq<u8>,
    rest: Seq<u8>,
) -> bool {
    &&& taken + rest == d
    &&& forall|i: int| 0 <= i < taken.len() ==> f.ensures((#[trigger] taken[i],), false)
    &&& rest.len() > 0 ==> f.ensures((rest[0],), true)
}

/// No byte of `d` meets `f`.
pub open spec fn no_byte_meets<F: Fn(u8) -> bool>(f: F, d: Seq<u8>) -> bool {
    forall|i: int| 0 <= i < d.len() ==> f.ensures((#[trigger] d[i],), false)
}

/// `taken` and then `rest` make up the text `d`; no character of `taken` meets
/// `f`, and the first character of `rest`, where there is one, does.
pub open spec fn split_chars_where<F: Fn(char) -> bool>(
    f: F,
    d: Seq<u8>,
    taken: Seq<u8>,
    rest: Seq<u8>,
) -> bool {
    &&& taken + rest == d
    &&& all_chars(f, decode_utf8(taken), false)
    &&& rest.len() > 0 ==> f.ensures((decode_utf8(rest)[0],), true)
}

/// The characters that `char::to_lowercase` maps `c` to.
pub uninterp spec fn lowercase_of(c: char) -> Seq<char>;

/// Each character that both texts have lower-cases as its counterpart does.
pub open spec fn chars_agree_no_case(a: Seq<char>, b: Seq<char>) -> bool {
    forall|i: int|
        #![trigger a[i], b[i]]
        0 <= i < a.len() && i < b.len() ==> lowercase_of(a[i]) == lowercase_of(b[i])
}

/// `char::to_lowercase`, gathered into a vector: the characters that `c`
/// lower-cases to, which `lowercase_of` names (Unicode's mapping, not stated
/// here).
#[verifier::external_body]
fn char_to_lowercase(c: char) -> (res: Vec<char>)
    ensures
        res@ == lowercase_of(c),
{
    c.to_lowercase().collect()
}

/// Two character sequences are the same.
fn same_chars(a: &Vec<char>, b: &Vec<char>) -> (res: bool)
    ensures
        res == (a@ == b@),
{
    if a.len() != b.len() {
        return false;
    }
    let mut i: usize = 0;
    while i < a.len()
        invariant
            a@.len() == b@.len(),
            i <= a@.len(),
            forall|k: int| 0 <= k < i ==> a@[k] == b@[k],
        decreases a@.len() - i,
    {
        if a[i] != b[i] {
            return false;
        }
        i += 1;
    }
    proof {
        assert(a@ =~= b@);
    }
    true
}

/// Bytes written as pairs of lowercase hexadecimal digits, with a newline
/// before every `chunk`-th byte counting from the first.
pub open spec fn hex_lines(s: Seq<u8>, chunk: int) -> Seq<u8>
    decreases s.len(),
{
    if s.len() == 0 {
        Seq::<u8>::empty()
    } else {
        let i = s.len() - 1;
        hex_lines(s.drop_last(), chunk) + (if i % chunk == 0 {
            seq![0x0au8]
        } else {
            Seq::<u8>::empty()
        }) + seq![hex_digit_lower(s[i] / 16), hex_digit_lower(s[i] % 16)]
    }
}

/// The bytes of `nom::HexDisplay::to_hex_from` on a byte slice: its dump of
/// offsets, hexadecimal and printable bytes, line by line.
pub uninterp spec fn hex_dump_of(data: Seq<u8>, chunk_size: usize, from: usize) -> Seq<u8>;

/// `nom::HexDisplay::to_hex_from` on a byte slice, whose text `hex_dump_of`
/// names (the layout is not stated here). Lines are cut with `chunks`, which
/// panics on a size of zero, and the offset label is counted up by the chunk
/// size past the last chunk.
#[verifier::external_body]
fn hex_dump(data: &[u8], chunk_size: usize, from: usize) -> (res: String)
    requires
        chunk_size > 0,
        from + data@.len() + chunk_size <= usize::MAX,
    ensures
        string_bytes(&res) == hex_dump_of(data@, chunk_size, from),
{
    nom::HexDisplay::to_hex_from(data, chunk_size, from)
}

/// `nom::Compare::compare` on two byte slices: `Error` at the first byte that
/// both have and that differs, else `Ok` (a match) where the input is at least as long
/// as the expected value, else `Incomplete`.
#[verifier::external_body]
fn slice_compare(a: &[u8], t: &[u8]) -> (res: CompareResult)
    ensures
        res == compare_bytes(a@, t@, false),
{
    match nom::Compare::compare(&a, t) {
        nom::CompareResult::Ok => CompareResult::Matches,
        nom::CompareResult::Incomplete => CompareResult::Incomplete,
        nom::CompareResult::Error => CompareResult::Differs,
    }
}

/// `nom::Compare::compare_no_case` on two byte slices: as `slice_compare`, with
/// ASCII letters compared regardless of case.
#[verifier::external_body]
fn slice_compare_no_case(a: &[u8], t: &[u8]) -> (res: CompareResult)
    ensures
        res == compare_bytes(a@, t@, true),
{
    match nom::Compare::compare_no_case(&a, t) {
        nom::CompareResult::Ok => CompareResult::Matches,
        nom::CompareResult::Incomplete => CompareResult::Incomplete,
        nom::CompareResult::Error => CompareResult::Differs,
    }
}

/// Compares two byte slices, exactly or ignoring ASCII case.
fn slice_compare_by(a: &[u8], t: &[u8], no_case: bool) -> (res: CompareResult)
    ensures
        res == compare_bytes(a@, t@, no_case),
{
    if no_case {
        slice_compare_no_case(a, t)
    } else {
        slice_compare(a, t)
    }
}

impl<'a> ByteData<'a> {
    /// Compares the start of the data with `t`.
    pub fn compare(&self, t: &[u8]) -> (res: CompareResult)
        ensures
            res == compare_bytes(self@, t@, false),
    {
        slice_compare(self.as_slice(), t)
    }

    /// Compares the start of the data with `t`, ignoring ASCII case.
    pub fn compare_no_case(&self, t: &[u8]) -> (res: CompareResult)
        ensures
            res == compare_bytes(self@, t@, true),
    {
        slice_compare_no_case(self.as_slice(), t)
    }

    /// The byte offset at which `count` bytes end, or how many more bytes are
    /// needed.
    pub fn slice_index(&self, count: usize) -> (res: Result<usize, Needed>)
        ensures
            res == byte_index(self@.len() as int, count as int),
    {
        byte_index_of(self.len(), count)
    }

    /// Whether the data holds the byte `token`.
    pub fn find_token(&self, token: u8) -> (res: bool)
        ensures
            res == self@.contains(token),
    {
        let is_token = |b: u8| -> (r: bool)
            ensures
                r == (b == token),
            { b == token };
        match self.position_where(&is_token) {
            Some(p) => {
                proof {
                    assert(self@[p as int] == self@.skip(p as int)[0]);
                }
                true
            },
            None => {
                proof {
                    assert forall|i: int| 0 <= i < self@.len() implies self@[i] != token by {
                        assert(is_token.ensures((self@[i],), false));
                    }
                }
                false
            },
        }
    }

    /// A hexadecimal dump of the data, as `nom` lays it out, with offsets
    /// counted from `from`.
    pub fn to_hex_from(&self, chunk_size: usize, from: usize) -> (res: String)
        requires
            chunk_size > 0,
            from + self@.len() + chunk_size <= usize::MAX,
        ensures
            string_bytes(&res) == hex_dump_of(self@, chunk_size, from),
    {
        hex_dump(self.as_slice(), chunk_size, from)
    }

    /// A hexadecimal dump of the data, as `nom` lays it out.
    pub fn to_hex(&self, chunk_size: usize) -> (res: String)
        requires
            chunk_size > 0,
            self@.len() + chunk_size <= usize::MAX,
        ensures
            string_bytes(&res) == hex_dump_of(self@, chunk_size, 0),
    {
        self.to_hex_from(chunk_size, 0)
    }

    /// The position of the first byte that meets `predicate`.
    fn position_where<P: Fn(u8) -> bool>(&self, predicate: &P) -> (res: Option<usize>)
        requires
            forall|b: u8| predicate.requires((b,)),
        ensures
            match res {
                Some(p) => p < self@.len() && split_bytes_where(
                    *predicate,
                    self@,
                    self@.take(p as int),
                    self@.skip(p as int),
                ),
                None => no_byte_meets(*predicate, self@),
            },
    {
        let av = self.as_slice();
        let n = av.len();
        let mut i: usize = 0;
        while i < n
            invariant
                n == av@.len(),
                av@ == self@,
                i <= n,
                forall|b: u8| predicate.requires((b,)),
                forall|k: int| 0 <= k < i ==> predicate.ensures((#[trigger] av@[k],), false),
            decreases n - i,
        {
            if predicate(av[i]) {
                proof {
                    assert(self@.take(i as int) + self@.skip(i as int) =~= self@);
                    assert(self@.skip(i as int)[0] == av@[i as int]);
                    assert forall|k: int| 0 <= k < i implies predicate.ensures(
                        (#[trigger] self@.take(i as int)[k],),
                        false,
                    ) by {
                        assert(self@.take(i as int)[k] == av@[k]);
                    }
                }
                return Some(i);
            }
            i += 1;
        }
        None
    }

    /// The data from `pos` on and the data before it.
    fn split_pair(&self, pos: usize) -> (res: (Self, Self))
        requires
            pos <= self@.len(),
        ensures
            res.0@ == self@.skip(pos as int),
            res.1@ == self@.take(pos as int),
    {
        let n = self.len();
        let rest = self.sliced(pos..n);
        let taken = self.sliced(0..pos);
        proof {
            assert(rest@ =~= self@.skip(pos as int));
            assert(taken@ =~= self@.take(pos as int));
        }
        (rest, taken)
    }

    /// Splits before the first byte that meets `predicate`, giving the rest and
    /// the bytes before it; where no byte does, more input is needed.
    pub fn split_at_position<P: Fn(u8) -> bool>(&self, predicate: P) -> (res: Result<
        (Self, Self),
        SplitError,
    >)
        requires
            forall|b: u8| predicate.requires((b,)),
        ensures
            match res {
                Ok((rest, taken)) => rest@.len() > 0 && split_bytes_where(
                    predicate,
                    self@,
                    taken@,
                    rest@,
                ),
                Err(e) => e == SplitError::Incomplete && no_byte_meets(predicate, self@),
            },
    {
        match self.position_where(&predicate) {
            Some(p) => Ok(self.split_pair(p)),
            None => Err(SplitError::Incomplete),
        }
    }

    /// As `split_at_position`, where a split before the first byte is a failure.
    pub fn split_at_position1<P: Fn(u8) -> bool>(&self, predicate: P) -> (res: Result<
        (Self, Self),
        SplitError,
    >)
        requires
            forall|b: u8| predicate.requires((b,)),
        ensures
            match res {
                Ok((rest, taken)) => rest@.len() > 0 && taken@.len() > 0 && split_bytes_where(
                    predicate,
                    self@,
                    taken@,
                    rest@,
                ),
                Err(SplitError::Failure) => self@.len() > 0 && predicate.ensures((self@[0],), true),
                Err(SplitError::Incomplete) => no_byte_meets(predicate, self@),
            },
    {
        match self.position_where(&predicate) {
            Some(p) => {
                if p == 0 {
                    return Err(SplitError::Failure);
                }
                Ok(self.split_pair(p))
            },
            None => Err(SplitError::Incomplete),
        }
    }

    /// Splits before the first byte that meets `predicate`, giving the rest and
    /// the bytes before it; where no byte does, all of the data is taken.
    pub fn split_at_position_complete<P: Fn(u8) -> bool>(&self, predicate: P) -> (res: (
        Self,
        Self,
    ))
        requires
            forall|b: u8| predicate.requires((b,)),
        ensures
            split_bytes_where(predicate, self@, res.1@, res.0@),
    {
        match self.position_where(&predicate) {
            Some(p) => self.split_pair(p),
            None => {
                proof {
                    assert(self@ + Seq::<u8>::empty() =~= self@);
                }
                (Self::empty(), self.clone())
            },
        }
    }

    /// As `split_at_position_complete`, where a split before the first byte is
    /// a failure.
    pub fn split_at_position1_complete<P: Fn(u8) -> bool>(&self, predicate: P) -> (res: Result<
        (Self, Self),
        SplitError,
    >)
        requires
            forall|b: u8| predicate.requires((b,)),
        ensures
            match res {
                Ok((rest, taken)) => (rest@.len() > 0 ==> taken@.len() > 0) && split_bytes_where(
                    predicate,
                    self@,
                    taken@,
                    rest@,
                ),
                Err(e) => e == SplitError::Failure && self@.len() > 0 && predicate.ensures(
                    (self@[0],),
                    true,
                ),
            },
    {
        match self.position_where(&predicate) {
            Some(p) => {
                if p == 0 {
                    return Err(SplitError::Failure);
                }
                Ok(self.split_pair(p))
            },
            None => {
                proof {
                    assert(self@ + Seq::<u8>::empty() =~= self@);
                }
                Ok((Self::empty(), self.clone()))
            },
        }
    }
}

impl<'a> ByteQueue<'a> {
    /// Compares the start of the queue with `t`, chunk by chunk.
    fn compare_chunks(&self, t: &[u8], no_case: bool) -> (res: CompareResult)
        ensures
            res == compare_bytes(self@, t@, no_case),
    {
        self.check_well_formed();
        let ghost s = self.spec_chunks();
        proof {
            lemma_chunk_start_end(s);
        }
        let n = self.chunk_len();
        let mut i: usize = 0;
        let mut pos: usize = 0;
        while i < n
            invariant
                s == self.spec_chunks(),
                self@ == flat(s),
                n == s.len(),
                i <= n,
                pos == min_len(chunk_start(s, i as int), t@.len() as int),
                agree_up_to(self@, t@, pos as int, no_case),
                chunk_start(s, 0) == 0,
                chunk_start(s, s.len() as int) == flat(s).len(),
            decreases n - i,
        {
            let c = self.chunk_at(i).as_slice();
            let ghost start = chunk_start(s, i as int);
            proof {
                lemma_chunk_in_flat(s, i as int);
            }
            let rest_len = t.len() - pos;
            let m = if c.len() < rest_len {
                c.len()
            } else {
                rest_len
            };
            let a = &t[pos..pos + m];
            match slice_compare_by(c, a, no_case) {
                CompareResult::Matches => {},
                CompareResult::Differs => {
                    proof {
                        let j = choose|j: int|
                            0 <= j < m && !#[trigger] bytes_agree(c@[j], a@[j], no_case);
                        assert(pos == start);
                        assert(self@[start + j] == c@[j]);
                        assert(t@[pos + j] == a@[j]);
                        assert(!bytes_agree(self@[pos + j], t@[pos + j], no_case));
                    }
                    return CompareResult::Differs;
                },
                CompareResult::Incomplete => {
                    return CompareResult::Incomplete;
                },
            }
            proof {
                assert forall|k: int| 0 <= k < pos + m implies #[trigger] bytes_agree(
                    self@[k],
                    t@[k],
                    no_case,
                ) by {
                    if k >= pos {
                        assert(self@[k] == c@[k - start]);
                        assert(a@[k - pos] == t@[k]);
                        assert(bytes_agree(c@[k - pos], a@[k - pos], no_case));
                    }
                }
            }
            pos = pos + m;
            i += 1;
        }
        if pos == t.len() {
            CompareResult::Matches
        } else {
            CompareResult::Incomplete
        }
    }

    /// Compares the start of the queue with `t`.
    pub fn compare(&self, t: &[u8]) -> (res: CompareResult)
        ensures
            res == compare_bytes(self@, t@, false),
    {
        self.compare_chunks(t, false)
    }

    /// Compares the start of the queue with `t`, ignoring ASCII case.
    pub fn compare_no_case(&self, t: &[u8]) -> (res: CompareResult)
        ensures
            res == compare_bytes(self@, t@, true),
    {
        self.compare_chunks(t, true)
    }

    /// The byte offset at which `count` bytes end, or how many more bytes are
    /// needed.
    pub fn slice_index(&self, count: usize) -> (res: Result<usize, Needed>)
        ensures
            res == byte_index(self@.len() as int, count as int),
    {
        byte_index_of(self.len(), count)
    }

    /// Whether the queue holds the byte `token`.
    pub fn find_token(&self, token: u8) -> (res: bool)
        ensures
            res == self@.contains(token),
    {
        let is_token = |b: u8| -> (r: bool)
            ensures
                r == (b == token),
            { b == token };
        match self.find_byte(is_token) {
            Some(p) => true,
            None => {
                proof {
                    assert forall|i: int| 0 <= i < self@.len() implies self@[i] != token by {
                        assert(is_token.ensures((self@[i],), false));
                    }
                }
                false
            },
        }
    }

    /// The bytes from `from` on in lowercase hexadecimal, two digits each, with
    /// a newline before every `chunk_size`-th byte.
    pub fn to_hex_from(&self, chunk_size: usize, from: usize) -> (res: String)
        requires
            chunk_size > 0,
            from <= self@.len(),
        ensures
            string_bytes(&res) == hex_lines(self@.skip(from as int), chunk_size as int),
    {
        self.check_well_formed();
        let ghost s = self@.skip(from as int);
        let mut it = self.bytes().skip(from);
        proof {
            if from == self@.len() {
                assert(s =~= Seq::<u8>::empty());
            }
            assert(s.take(0) =~= Seq::<u8>::empty());
            assert(s.skip(0) =~= s);
        }
        let mut out: Vec<u8> = Vec::new();
        let mut i: usize = 0;
        loop
            invariant
                i <= s.len(),
                it@ == s.skip(i as int),
                out@ == hex_lines(s.take(i as int), chunk_size as int),
                forall|k: int| 0 <= k < out@.len() ==> out@[k] < 0x80,
                chunk_size > 0,
                s.len() <= usize::MAX,
            ensures
                out@ == hex_lines(s, chunk_size as int),
                forall|k: int| 0 <= k < out@.len() ==> out@[k] < 0x80,
            decreases s.len() - i,
        {
            let ghost before = out@;
            match it.next() {
                None => {
                    proof {
                        assert(s.take(i as int) =~= s);
                    }
                    break;
                },
                Some(b) => {
                    proof {
                        assert(b == s[i as int]);
                    }
                    if i % chunk_size == 0 {
                        out.push(0x0a);
                    }
                    out.push(hex_lower(b / 16));
                    out.push(hex_lower(b % 16));
                    proof {
                        let t = s.take(i + 1);
                        assert(t.drop_last() =~= s.take(i as int));
                        assert(t[i as int] == b);
                        assert(out@ =~= hex_lines(t, chunk_size as int));
                        assert(s.skip(i as int).drop_first() =~= s.skip(i + 1));
                    }
                    i = i + 1;
                },
            }
        }
        ascii_to_string(out)
    }

    /// All of the bytes in lowercase hexadecimal, two digits each, with a
    /// newline before every `chunk_size`-th byte.
    pub fn to_hex(&self, chunk_size: usize) -> (res: String)
        requires
            chunk_size > 0,
        ensures
            string_bytes(&res) == hex_lines(self@, chunk_size as int),
    {
        proof {
            assert(self@.skip(0) =~= self@);
        }
        self.to_hex_from(chunk_size, 0)
    }

    /// The position of the first byte that meets `predicate`.
    fn position_where<P: Fn(u8) -> bool>(&self, predicate: P) -> (res: Option<usize>)
        requires
            forall|b: u8| predicate.requires((b,)),
        ensures
            match res {
                Some(p) => p < self@.len() && split_bytes_where(
                    predicate,
                    self@,
                    self@.take(p as int),
                    self@.skip(p as int),
                ),
                None => no_byte_meets(predicate, self@),
            },
    {
        let r = self.find_byte(predicate);
        proof {
            if let Some(p) = r {
                assert(self@.take(p as int) + self@.skip(p as int) =~= self@);
                assert(self@.skip(p as int)[0] == self@[p as int]);
                assert forall|k: int| 0 <= k < p implies predicate.ensures(
                    (#[trigger] self@.take(p as int)[k],),
                    false,
                ) by {
                    assert(self@.take(p as int)[k] == self@[k]);
                }
            }
        }
        r
    }

    /// The queue from `pos` on and the queue before it.
    fn split_pair(&self, pos: usize) -> (res: (Self, Self))
        requires
            pos <= self@.len(),
        ensures
            res.0@ == self@.skip(pos as int),
            res.1@ == self@.take(pos as int),
    {
        let n = self.len();
        let rest = self.slice(pos..n);
        let taken = self.slice(0..pos);
        proof {
            assert(rest@ =~= self@.skip(pos as int));
            assert(taken@ =~= self@.take(pos as int));
        }
        (rest, taken)
    }

    /// Splits before the first byte that meets `predicate`, giving the rest and
    /// the bytes before it; where no byte does, more input is needed.
    pub fn split_at_position<P: Fn(u8) -> bool>(&self, predicate: P) -> (res: Result<
        (Self, Self),
        SplitError,
    >)
        requires
            forall|b: u8| predicate.requires((b,)),
        ensures
            match res {
                Ok((rest, taken)) => rest@.len() > 0 && split_bytes_where(
                    predicate,
                    self@,
                    taken@,
                    rest@,
                ),
                Err(e) => e == SplitError::Incomplete && no_byte_meets(predicate, self@),
            },
    {
        match self.position_where(predicate) {
            Some(p) => Ok(self.split_pair(p)),
            None => Err(SplitError::Incomplete),
        }
    }

    /// As `split_at_position`, where a split before the first byte is a failure.
    pub fn split_at_position1<P: Fn(u8) -> bool>(&self, predicate: P) -> (res: Result<
        (Self, Self),
        SplitError,
    >)
        requires
            forall|b: u8| predicate.requires((b,)),
        ensures
            match res {
                Ok((rest, taken)) => rest@.len() > 0 && taken@.len() > 0 && split_bytes_where(
                    predicate,
                    self@,
                    taken@,
                    rest@,
                ),
                Err(SplitError::Failure) => self@.len() > 0 && predicate.ensures((self@[0],), true),
                Err(SplitError::Incomplete) => no_byte_meets(predicate, self@),
            },
    {
        match self.position_where(predicate) {
            None => Err(SplitError::Incomplete),
            Some(0) => Err(SplitError::Failure),
            Some(p) => Ok(self.split_pair(p)),
        }
    }

    /// Splits before the first byte that meets `predicate`, giving the rest and
    /// the bytes before it; where no byte does, all of the queue is taken.
    pub fn split_at_position_complete<P: Fn(u8) -> bool>(&self, predicate: P) -> (res: (
        Self,
        Self,
    ))
        requires
            forall|b: u8| predicate.requires((b,)),
        ensures
            split_bytes_where(predicate, self@, res.1@, res.0@),
    {
        match self.position_where(predicate) {
            Some(p) => self.split_pair(p),
            None => {
                proof {
                    assert(self@ + Seq::<u8>::empty() =~= self@);
                }
                (Self::new(), self.clone())
            },
        }
    }

    /// As `split_at_position_complete`, where a split before the first byte is
    /// a failure.
    pub fn split_at_position1_complete<P: Fn(u8) -> bool>(&self, predicate: P) -> (res: Result<
        (Self, Self),
        SplitError,
    >)
        requires
            forall|b: u8| predicate.requires((b,)),
        ensures
            match res {
                Ok((rest, taken)) => (rest@.len() > 0 ==> taken@.len() > 0) && split_bytes_where(
                    predicate,
                    self@,
                    taken@,
                    rest@,
                ),
                Err(e) => e == SplitError::Failure && self@.len() > 0 && predicate.ensures(
                    (self@[0],),
                    true,
                ),
            },
    {
        match self.position_where(predicate) {
            None => {
                proof {
                    assert(self@ + Seq::<u8>::empty() =~= self@);
                }
                Ok((Self::new(), self.clone()))
            },
            Some(0) => Err(SplitError::Failure),
            Some(p) => Ok(self.split_pair(p)),
        }
    }
}

impl<'a> StringData<'a> {
    /// Whether `index` falls between two characters (or at either end).
    pub fn is_char_boundary(&self, index: usize) -> (res: bool)
        ensures
            res == is_boundary(self@, index as int),
    {
        let d = self.as_bytes();
        if index == d.len() {
            true
        } else if index > d.len() {
            false
        } else {
            let b = d[index];
            !(0x80 <= b && b <= 0xbf)
        }
    }

    /// Compares the start of the text with `t`.
    pub fn compare(&self, t: &[u8]) -> (res: CompareResult)
        ensures
            res == compare_bytes(self@, t@, false),
    {
        slice_compare(self.as_bytes(), t)
    }

    /// Compares the start of the text with `t`, ignoring ASCII case.
    pub fn compare_no_case(&self, t: &[u8]) -> (res: CompareResult)
        ensures
            res == compare_bytes(self@, t@, true),
    {
        slice_compare_no_case(self.as_bytes(), t)
    }

    /// Compares the start of the text with the text `t`, character by
    /// character, each as `char::to_lowercase` maps it; whether the whole of
    /// `t` was met goes by the byte lengths.
    pub fn compare_no_case_str(&self, t: &str) -> (res: CompareResult)
        ensures
            res == (if !chars_agree_no_case(self.spec_chars(), t@) {
                CompareResult::Differs
            } else if self@.len() >= t.spec_bytes().len() {
                CompareResult::Matches
            } else {
                CompareResult::Incomplete
            }),
    {
        StringQueue::with_item(self.clone()).compare_no_case_str(t)
    }

    /// A hexadecimal dump of the text's bytes, as `nom` lays it out, with
    /// offsets counted from `from`.
    pub fn to_hex_from(&self, chunk_size: usize, from: usize) -> (res: String)
        requires
            chunk_size > 0,
            from + self@.len() + chunk_size <= usize::MAX,
        ensures
            string_bytes(&res) == hex_dump_of(self@, chunk_size, from),
    {
        hex_dump(self.as_bytes(), chunk_size, from)
    }

    /// A hexadecimal dump of the text's bytes, as `nom` lays it out.
    pub fn to_hex(&self, chunk_size: usize) -> (res: String)
        requires
            chunk_size > 0,
            self@.len() + chunk_size <= usize::MAX,
        ensures
            string_bytes(&res) == hex_dump_of(self@, chunk_size, 0),
    {
        self.to_hex_from(chunk_size, 0)
    }

    /// The byte offset at which the first `count` characters end; where the
    /// text has fewer, how much more is needed is not known.
    pub fn slice_index(&self, count: usize) -> (res: Result<usize, Needed>)
        ensures
            count <= self.spec_chars().len() ==> (res matches Ok(p) && is_boundary(self@, p as int)
                && decode_utf8(self@.take(p as int)).len() == count),
            count > self.spec_chars().len() ==> res == Err::<usize, Needed>(Needed::Unknown),
    {
        self.check_valid();
        let d = self.as_bytes();
        let n = d.len();
        let mut i: usize = 0;
        let mut cnt: usize = 0;
        proof {
            assert(d@.take(0) =~= Seq::<u8>::empty());
            assert(decode_utf8(Seq::<u8>::empty()) =~= Seq::<char>::empty());
            assert(d@.skip(0) =~= d@);
        }
        while i < n
            invariant
                n == d@.len(),
                d@ == self@,
                valid_utf8(d@),
                i <= n,
                cnt <= count,
                valid_utf8(d@.take(i as int)),
                valid_utf8(d@.skip(i as int)),
                is_boundary(d@, i as int),
                decode_utf8(d@) == decode_utf8(d@.take(i as int)) + decode_utf8(d@.skip(i as int)),
                decode_utf8(d@.take(i as int)).len() == cnt,
            decreases n - i,
        {
            if cnt == count {
                return Ok(i);
            }
            let rest = &d[i..n];
            proof {
                assert(rest@ =~= d@.skip(i as int));
            }
            let (c, w) = next_char(rest);
            proof {
                lemma_first_scalar_alone(rest@);
                let pre = d@.take(i as int);
                let t = rest@.take(w as int);
                lemma_decode_concat(pre, t);
                assert(pre + t =~= d@.take(i + w));
                assert(rest@.skip(w as int) =~= d@.skip(i + w));
                assert(decode_utf8(pre + t) =~= decode_utf8(pre).push(c));
                if i + w < n {
                    lemma_utf8_first_not_continuation(rest@.skip(w as int));
                    assert(d@[i + w] == rest@.skip(w as int)[0]);
                }
                assert(decode_utf8(rest@) == seq![c] + decode_utf8(rest@.skip(w as int)));
                assert(decode_utf8(d@) =~= decode_utf8(d@.take(i + w)) + decode_utf8(
                    d@.skip(i + w),
                ));
            }
            i = i + w;
            cnt = cnt + 1;
        }
        proof {
            assert(d@.take(n as int) =~= d@);
            assert(d@.skip(n as int) =~= Seq::<u8>::empty());
            assert(decode_utf8(Seq::<u8>::empty()) =~= Seq::<char>::empty());
        }
        if cnt == count {
            Ok(n)
        } else {
            Err(Needed::Unknown)
        }
    }

    /// Whether the text holds the character `token`.
    pub fn find_token(&self, token: char) -> (res: bool)
        ensures
            res == self.spec_chars().contains(token),
    {
        let is_token = |c: char| -> (r: bool)
            ensures
                r == (c == token),
            { c == token };
        self.check_valid();
        match self.position_where(&is_token) {
            Some(p) => {
                proof {
                    lemma_split_decode(self@, p as int);
                    let t = decode_utf8(self@.take(p as int));
                    lemma_first_scalar_alone(self@.skip(p as int));
                    assert(self.spec_chars()[t.len() as int] == decode_utf8(self@.skip(p as int))[0]);
                }
                true
            },
            None => {
                proof {
                    assert forall|i: int| 0 <= i < self.spec_chars().len() implies self.spec_chars()[i]
                        != token by {
                        assert(is_token.ensures((self.spec_chars()[i],), false));
                    }
                }
                false
            },
        }
    }

    /// The byte position of the first character that meets `predicate`.
    fn position_where<P: Fn(char) -> bool>(&self, predicate: &P) -> (res: Option<usize>)
        requires
            forall|c: char| predicate.requires((c,)),
        ensures
            match res {
                Some(p) => p < self@.len() && is_boundary(self@, p as int) && split_chars_where(
                    *predicate,
                    self@,
                    self@.take(p as int),
                    self@.skip(p as int),
                ),
                None => all_chars(*predicate, self.spec_chars(), false),
            },
    {
        self.check_valid();
        let d = self.as_bytes();
        let p = prefix_until(d, predicate, true);
        if p == d.len() {
            proof {
                assert(d@.take(p as int) =~= d@);
            }
            None
        } else {
            proof {
                assert(self@.take(p as int) + self@.skip(p as int) =~= self@);
            }
            Some(p)
        }
    }

    /// The text from `pos` on and the text before it.
    fn split_pair(&self, pos: usize) -> (res: (Self, Self))
        requires
            pos <= self@.len(),
            is_boundary(self@, pos as int),
        ensures
            res.0@ == self@.skip(pos as int),
            res.1@ == self@.take(pos as int),
    {
        self.check_valid();
        let n = self.len();
        proof {
            if n > 0 {
                lemma_utf8_first_not_continuation(self@);
            }
        }
        let rest = self.sliced(pos..n);
        let taken = self.sliced(0..pos);
        proof {
            assert(rest@ =~= self@.skip(pos as int));
            assert(taken@ =~= self@.take(pos as int));
        }
        (rest, taken)
    }

    /// Splits before the first character that meets `predicate`, giving the
    /// rest and the text before it; where no character does, more input is
    /// needed.
    pub fn split_at_position<P: Fn(char) -> bool>(&self, predicate: P) -> (res: Result<
        (Self, Self),
        SplitError,
    >)
        requires
            forall|c: char| predicate.requires((c,)),
        ensures
            match res {
                Ok((rest, taken)) => rest@.len() > 0 && split_chars_where(
                    predicate,
                    self@,
                    taken@,
                    rest@,
                ),
                Err(e) => e == SplitError::Incomplete && all_chars(
                    predicate,
                    self.spec_chars(),
                    false,
                ),
            },
    {
        match self.position_where(&predicate) {
            Some(p) => Ok(self.split_pair(p)),
            None => Err(SplitError::Incomplete),
        }
    }

    /// As `split_at_position`, where a split before the first character is a
    /// failure.
    pub fn split_at_position1<P: Fn(char) -> bool>(&self, predicate: P) -> (res: Result<
        (Self, Self),
        SplitError,
    >)
        requires
            forall|c: char| predicate.requires((c,)),
        ensures
            match res {
                Ok((rest, taken)) => rest@.len() > 0 && taken@.len() > 0 && split_chars_where(
                    predicate,
                    self@,
                    taken@,
                    rest@,
                ),
                Err(SplitError::Failure) => self@.len() > 0 && predicate.ensures(
                    (self.spec_chars()[0],),
                    true,
                ),
                Err(SplitError::Incomplete) => all_chars(predicate, self.spec_chars(), false),
            },
    {
        match self.position_where(&predicate) {
            Some(p) => {
                if p == 0 {
                    proof {
                        assert(self@.skip(0) =~= self@);
                    }
                    return Err(SplitError::Failure);
                }
                Ok(self.split_pair(p))
            },
            None => Err(SplitError::Incomplete),
        }
    }

    /// Splits before the first character that meets `predicate`, giving the
    /// rest and the text before it; where no character does, all of the text
    /// is taken.
    pub fn split_at_position_complete<P: Fn(char) -> bool>(&self, predicate: P) -> (res: (
        Self,
        Self,
    ))
        requires
            forall|c: char| predicate.requires((c,)),
        ensures
            split_chars_where(predicate, self@, res.1@, res.0@),
    {
        match self.position_where(&predicate) {
            Some(p) => self.split_pair(p),
            None => {
                proof {
                    assert(self@ + Seq::<u8>::empty() =~= self@);
                }
                (Self::empty(), self.clone())
            },
        }
    }

    /// As `split_at_position_complete`, where a split before the first
    /// character is a failure.
    pub fn split_at_position1_complete<P: Fn(char) -> bool>(&self, predicate: P) -> (res: Result<
        (Self, Self),
        SplitError,
    >)
        requires
            forall|c: char| predicate.requires((c,)),
        ensures
            match res {
                Ok((rest, taken)) => (rest@.len() > 0 ==> taken@.len() > 0) && split_chars_where(
                    predicate,
                    self@,
                    taken@,
                    rest@,
                ),
                Err(e) => e == SplitError::Failure && self@.len() > 0 && predicate.ensures(
                    (self.spec_chars()[0],),
                    true,
                ),
            },
    {
        match self.position_where(&predicate) {
            Some(p) => {
                if p == 0 {
                    proof {
                        assert(self@.skip(0) =~= self@);
                    }
                    return Err(SplitError::Failure);
                }
                Ok(self.split_pair(p))
            },
            None => {
                proof {
                    assert(self@ + Seq::<u8>::empty() =~= self@);
                }
                Ok((Self::empty(), self.clone()))
            },
        }
    }
}

impl<'a> StringQueue<'a> {
    /// Whether `index` falls between two characters (or at either end).
    pub fn is_char_boundary(&self, index: usize) -> (res: bool)
        ensures
            res == is_boundary(self@, index as int),
    {
        let n = self.len();
        if index == n {
            true
        } else if index > n {
            false
        } else {
            let b = self.as_bytequeue().get_byte(index);
            !(0x80 <= b && b <= 0xbf)
        }
    }

    /// Compares the start of the queue with `t`.
    pub fn compare(&self, t: &[u8]) -> (res: CompareResult)
        ensures
            res == compare_bytes(self@, t@, false),
    {
        self.as_bytequeue().compare(t)
    }

    /// Compares the start of the queue with `t`, ignoring ASCII case.
    pub fn compare_no_case(&self, t: &[u8]) -> (res: CompareResult)
        ensures
            res == compare_bytes(self@, t@, true),
    {
        self.as_bytequeue().compare_no_case(t)
    }

    /// The bytes from `from` on in lowercase hexadecimal, two digits each, with
    /// a newline before every `chunk_size`-th byte.
    pub fn to_hex_from(&self, chunk_size: usize, from: usize) -> (res: String)
        requires
            chunk_size > 0,
            from <= self@.len(),
        ensures
            string_bytes(&res) == hex_lines(self@.skip(from as int), chunk_size as int),
    {
        self.as_bytequeue().to_hex_from(chunk_size, from)
    }

    /// All of the bytes in lowercase hexadecimal, two digits each, with a
    /// newline before every `chunk_size`-th byte.
    pub fn to_hex(&self, chunk_size: usize) -> (res: String)
        requires
            chunk_size > 0,
        ensures
            string_bytes(&res) == hex_lines(self@, chunk_size as int),
    {
        self.as_bytequeue().to_hex(chunk_size)
    }

    /// Compares the start of the queue with the text `t`, character by
    /// character, each as `char::to_lowercase` maps it; whether the whole of
    /// `t` was met goes by the byte lengths.
    pub fn compare_no_case_str(&self, t: &str) -> (res: CompareResult)
        ensures
            res == (if !chars_agree_no_case(self.spec_chars(), t@) {
                CompareResult::Differs
            } else if self@.len() >= t.spec_bytes().len() {
                CompareResult::Matches
            } else {
                CompareResult::Incomplete
            }),
    {
        let ghost ac = self.spec_chars();
        let ghost bc = t@;
        let mut a_it = self.chars();
        let mut b_it = StringData::from_borrowed(t);
        proof {
            encode_utf8_decode_utf8(t@);
        }
        let ghost mut k: int = 0;
        loop
            invariant_except_break
                a_it.spec_chars() == ac.skip(k),
                b_it.spec_chars() == bc.skip(k),
            invariant
                ac == self.spec_chars(),
                bc == t@,
                0 <= k <= ac.len(),
                k <= bc.len(),
                forall|i: int|
                    #![trigger ac[i], bc[i]]
                    0 <= i < k ==> lowercase_of(ac[i]) == lowercase_of(bc[i]),
            ensures
                chars_agree_no_case(ac, bc),
            decreases ac.len() - k,
        {
            let x = match a_it.next() {
                Some(x) => x,
                None => {
                    proof {
                        assert(ac.skip(k).len() == 0);
                    }
                    break;
                },
            };
            b_it.check_valid();
            proof {
                if b_it@.len() > 0 {
                    lemma_first_scalar_alone(b_it@);
                } else {
                    assert(b_it@ =~= Seq::<u8>::empty());
                    assert(decode_utf8(Seq::<u8>::empty()) =~= Seq::<char>::empty());
                }
            }
            let y = match b_it.next() {
                Some(y) => y,
                None => {
                    proof {
                        assert(bc.skip(k).len() == 0);
                    }
                    break;
                },
            };
            proof {
                assert(x == ac[k]);
                assert(y == bc[k]);
            }
            let lx = char_to_lowercase(x);
            let ly = char_to_lowercase(y);
            if !same_chars(&lx, &ly) {
                proof {
                    assert(lowercase_of(ac[k]) != lowercase_of(bc[k]));
                    assert(!chars_agree_no_case(ac, bc));
                }
                return CompareResult::Differs;
            }
            proof {
                assert(ac.skip(k).drop_first() =~= ac.skip(k + 1));
                assert(bc.skip(k).drop_first() =~= bc.skip(k + 1));
                k = k + 1;
            }
        }
        if self.len() >= t.as_bytes().len() {
            CompareResult::Matches
        } else {
            CompareResult::Incomplete
        }
    }

    /// The byte offset at which `count` bytes end, or how many more bytes are
    /// needed.
    pub fn slice_index(&self, count: usize) -> (res: Result<usize, Needed>)
        ensures
            res == byte_index(self@.len() as int, count as int),
    {
        byte_index_of(self.len(), count)
    }

    /// Whether the queue holds the character `token`.
    pub fn find_token(&self, token: char) -> (res: bool)
        ensures
            res == self.spec_chars().contains(token),
    {
        let is_token = |c: char| -> (r: bool)
            ensures
                r == (c == token),
            { c == token };
        self.check_valid();
        match self.find_char(is_token) {
            Some(p) => {
                proof {
                    lemma_split_decode(self@, p as int);
                    let t = decode_utf8(self@.take(p as int));
                    lemma_first_scalar_alone(self@.skip(p as int));
                    assert(self.spec_chars()[t.len() as int] == decode_utf8(self@.skip(p as int))[0]);
                }
                true
            },
            None => {
                proof {
                    assert forall|i: int| 0 <= i < self.spec_chars().len() implies self.spec_chars()[i]
                        != token by {
                        assert(is_token.ensures((self.spec_chars()[i],), false));
                    }
                }
                false
            },
        }
    }

    /// The byte position of the first character that meets `predicate`.
    fn position_where<P: Fn(char) -> bool>(&self, predicate: P) -> (res: Option<usize>)
        requires
            forall|c: char| predicate.requires((c,)),
        ensures
            match res {
                Some(p) => p < self@.len() && is_boundary(self@, p as int) && split_chars_where(
                    predicate,
                    self@,
                    self@.take(p as int),
                    self@.skip(p as int),
                ),
                None => all_chars(predicate, self.spec_chars(), false),
            },
    {
        let r = self.find_char(predicate);
        proof {
            if let Some(p) = r {
                assert(self@.take(p as int) + self@.skip(p as int) =~= self@);
            }
        }
        r
    }

    /// The queue from `pos` on and the queue before it.
    fn split_pair(&self, pos: usize) -> (res: (Self, Self))
        requires
            pos <= self@.len(),
            is_boundary(self@, pos as int),
        ensures
            res.0@ == self@.skip(pos as int),
            res.1@ == self@.take(pos as int),
    {
        self.check_valid();
        let n = self.len();
        proof {
            if n > 0 {
                lemma_utf8_first_not_continuation(self@);
            }
        }
        let rest = self.slice(pos..n);
        let taken = self.slice(0..pos);
        proof {
            assert(rest@ =~= self@.skip(pos as int));
            assert(taken@ =~= self@.take(pos as int));
        }
        (rest, taken)
    }

    /// Splits before the first character that meets `predicate`, giving the
    /// rest and the text before it; where no character does, more input is
    /// needed.
    pub fn split_at_position<P: Fn(char) -> bool>(&self, predicate: P) -> (res: Result<
        (Self, Self),
        SplitError,
    >)
        requires
            forall|c: char| predicate.requires((c,)),
        ensures
            match res {
                Ok((rest, taken)) => rest@.len() > 0 && split_chars_where(
                    predicate,
                    self@,
                    taken@,
                    rest@,
                ),
                Err(e) => e == SplitError::Incomplete && all_chars(
                    predicate,
                    self.spec_chars(),
                    false,
                ),
            },
    {
        match self.position_where(predicate) {
            Some(p) => Ok(self.split_pair(p)),
            None => Err(SplitError::Incomplete),
        }
    }

    /// As `split_at_position`, where a split before the first character is a
    /// failure.
    pub fn split_at_position1<P: Fn(char) -> bool>(&self, predicate: P) -> (res: Result<
        (Self, Self),
        SplitError,
    >)
        requires
            forall|c: char| predicate.requires((c,)),
        ensures
            match res {
                Ok((rest, taken)) => rest@.len() > 0 && taken@.len() > 0 && split_chars_where(
                    predicate,
                    self@,
                    taken@,
                    rest@,
                ),
                Err(SplitError::Failure) => self@.len() > 0 && predicate.ensures(
                    (self.spec_chars()[0],),
                    true,
                ),
                Err(SplitError::Incomplete) => all_chars(predicate, self.spec_chars(), false),
            },
    {
        match self.position_where(predicate) {
            None => Err(SplitError::Incomplete),
            Some(0) => {
                proof {
                    assert(self@.skip(0) =~= self@);
                }
                Err(SplitError::Failure)
            },
            Some(p) => Ok(self.split_pair(p)),
        }
    }

    /// Splits before the first character that meets `predicate`, giving the
    /// rest and the text before it; where no character does, all of the queue
    /// is taken.
    pub fn split_at_position_complete<P: Fn(char) -> bool>(&self, predicate: P) -> (res: (
        Self,
        Self,
    ))
        requires
            forall|c: char| predicate.requires((c,)),
        ensures
            split_chars_where(predicate, self@, res.1@, res.0@),
    {
        match self.position_where(predicate) {
            Some(p) => self.split_pair(p),
            None => {
                proof {
                    assert(self@ + Seq::<u8>::empty() =~= self@);
                }
                (Self::new(), self.clone())
            },
        }
    }

    /// As `split_at_position_complete`, where a split before the first
    /// character is a failure.
    pub fn split_at_position1_complete<P: Fn(char) -> bool>(&self, predicate: P) -> (res: Result<
        (Self, Self),
        SplitError,
    >)
        requires
            forall|c: char| predicate.requires((c,)),
        ensures
            match res {
                Ok((rest, taken)) => (rest@.len() > 0 ==> taken@.len() > 0) && split_chars_where(
                    predicate,
                    self@,
                    taken@,
                    rest@,
                ),
                Err(e) => e == SplitError::Failure && self@.len() > 0 && predicate.ensures(
                    (self.spec_chars()[0],),
                    true,
                ),
            },
    {
        match self.position_where(predicate) {
            None => {
                proof {
                    assert(self@ + Seq::<u8>::empty() =~= self@);
                }
                Ok((Self::new(), self.clone()))
            },
            Some(0) => {
                proof {
                    assert(self@.skip(0) =~= self@);
                }
                Err(SplitError::Failure)
            },
            Some(p) => Ok(self.split_pair(p)),
        }
    }
}

} // verus!
