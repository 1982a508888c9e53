//! A container of UTF-8 text that can be static, borrowed, inline or shared.
use std::borrow::Cow;
use vstd::prelude::*;
use vstd::string::StringSliceAdditionalSpecFns;
use vstd::utf8::*;

use crate::bytedata::{split_parts, ByteData, ByteDataSplit, Kind};
use crate::char_indices::{lemma_decode_concat, lemma_first_scalar_alone, next_char};
use crate::shared_bytes::SharedBytes;
use crate::slices::{first_occurrence, never_occurs};

verus! {

/// The UTF-8 bytes of a `String`.
pub open spec fn string_bytes(s: &String) -> Seq<u8> {
    encode_utf8(s@)
}

/// Takes the bytes out of a `String` without copying.
#[verifier::external_body]
pub(crate) fn string_into_bytes(s: String) -> (res: Vec<u8>)
    ensures
        res@ == string_bytes(&s),
{
    s.into_bytes()
}

/// What `Utf8Error::error_len` reports for bytes that are not valid UTF-8.
pub uninterp spec fn utf8_error_len(b: Seq<u8>) -> Option<usize>;

/// Reads bytes as a `str` with `core::str::from_utf8`. Where they are not valid
/// UTF-8 it gives `Utf8Error::valid_up_to`, the length of the longest valid
/// prefix, and `Utf8Error::error_len`: `None` where the input ends within a
/// character, one to three bytes after the valid prefix; else the length of an
/// invalid sequence, which no bytes after it can turn into a character.
#[verifier::external_body]
pub(crate) fn str_from_utf8(b: &[u8]) -> (res: Result<&str, (usize, Option<usize>)>)
    ensures
        res is Ok <==> valid_utf8(b@),
        res matches Ok(s) ==> s.spec_bytes() == b@,
        res matches Err((v, el)) ==> {
            &&& v < b@.len()
            &&& valid_utf8(b@.take(v as int))
            &&& forall|k: int| v < k <= b@.len() ==> !valid_utf8(#[trigger] b@.take(k))
            &&& el == utf8_error_len(b@)
            &&& el is None ==> b@.len() - v <= 3
            &&& el is Some ==> forall|t: Seq<u8>|
                !valid_utf8(#[trigger] (b@.skip(v as int) + t))
        },
{
    match core::str::from_utf8(b) {
        Ok(s) => Ok(s),
        Err(e) => Err((e.valid_up_to(), e.error_len())),
    }
}

/// Turns bytes that are valid UTF-8 into a `String` without copying.
#[verifier::external_body]
pub(crate) fn string_from_utf8(b: Vec<u8>) -> (res: String)
    requires
        valid_utf8(b@),
    ensures
        string_bytes(&res) == b@,
{
    match String::from_utf8(b) {
        Ok(s) => s,
        Err(_) => String::new(),
    }
}

/// Whether a character has the Unicode `White_Space` property, as
/// `char::is_whitespace` uses it: tab to carriage return, space, next line,
/// no-break space, the Ogham space mark, the spaces from en quad to hair
/// space, the line and paragraph separators, the narrow no-break space, the
/// medium mathematical space and the ideographic space.
pub open spec fn is_white_space(c: char) -> bool {
    let v = c as u32;
    ||| 0x09 <= v <= 0x0D
    ||| v == 0x20
    ||| v == 0x85
    ||| v == 0xA0
    ||| v == 0x1680
    ||| 0x2000 <= v <= 0x200A
    ||| v == 0x2028
    ||| v == 0x2029
    ||| v == 0x202F
    ||| v == 0x205F
    ||| v == 0x3000
}

/// Tells whether a character is whitespace, as `char::is_whitespace` defines it.
pub(crate) fn char_is_whitespace(c: char) -> (res: bool)
    ensures
        res == is_white_space(c),
{
    let v = c as u32;
    (0x09 <= v && v <= 0x0D) || v == 0x20 || v == 0x85 || v == 0xA0 || v == 0x1680 || (0x2000
        <= v && v <= 0x200A) || v == 0x2028 || v == 0x2029 || v == 0x202F || v == 0x205F || v
        == 0x3000
}

/// Every character of `chars` meets `f`.
pub open spec fn all_chars<F: Fn(char) -> bool>(f: F, chars: Seq<char>, val: bool) -> bool {
    forall|i: int| 0 <= i < chars.len() ==> f.ensures((chars[i],), val)
}

/// All characters are whitespace.
pub open spec fn all_white_space(chars: Seq<char>) -> bool {
    forall|i: int| 0 <= i < chars.len() ==> is_white_space(#[trigger] chars[i])
}

/// The bytes of valid UTF-8 between two positions that fall on character
/// starts (or the end) are valid UTF-8.
pub proof fn lemma_valid_subrange(d: Seq<u8>, s: int, e: int)
    requires
        valid_utf8(d),
        0 <= s <= e <= d.len(),
        s == d.len() || !is_continuation_byte(d[s]),
        e == d.len() || !is_continuation_byte(d[e]),
    ensures
        valid_utf8(d.subrange(s, e)),
{
    is_char_boundary_start_end_of_seq(d);
    if e < d.len() {
        is_char_boundary_iff_not_is_continuation_byte(d, e);
    }
    valid_utf8_split(d, e);
    let p = d.subrange(0, e);
    is_char_boundary_start_end_of_seq(p);
    if s < e {
        assert(p[s] == d[s]);
        is_char_boundary_iff_not_is_continuation_byte(p, s);
    }
    valid_utf8_split(p, s);
    assert(p.subrange(s, p.len() as int) =~= d.subrange(s, e));
}

/// Splits valid UTF-8 at the start of a character.
pub proof fn lemma_split_decode(d: Seq<u8>, k: int)
    requires
        valid_utf8(d),
        0 <= k <= d.len(),
        k == d.len() || !is_continuation_byte(d[k]),
    ensures
        valid_utf8(d.take(k)),
        valid_utf8(d.skip(k)),
        decode_utf8(d) == decode_utf8(d.take(k)) + decode_utf8(d.skip(k)),
{
    lemma_valid_subrange(d, 0, k);
    lemma_valid_subrange(d, k, d.len() as int);
    assert(d.take(k) =~= d.subrange(0, k));
    assert(d.skip(k) =~= d.subrange(k, d.len() as int));
    lemma_decode_concat(d.take(k), d.skip(k));
    assert(d.take(k) + d.skip(k) =~= d);
}

/// The number of leading bytes of valid UTF-8 whose characters all give
/// `!want` under `f`, stopping before the first character that gives `want`.
pub(crate) fn prefix_until<F: Fn(char) -> bool>(d: &[u8], f: &F, want: bool) -> (res: usize)
    requires
        valid_utf8(d@),
        forall|c: char| f.requires((c,)),
    ensures
        res <= d@.len(),
        res == d@.len() || !is_continuation_byte(d@[res as int]),
        all_chars(*f, decode_utf8(d@.take(res as int)), !want),
        res < d@.len() ==> f.ensures((decode_utf8(d@.skip(res as int))[0],), want),
{
    let n = d.len();
    let mut i: usize = 0;
    proof {
        assert(d@.take(0) =~= Seq::<u8>::empty());
        assert(decode_utf8(Seq::<u8>::empty()) =~= Seq::<char>::empty());
        assert(d@.skip(0) =~= d@);
    }
    while i < n
        invariant
            n == d@.len(),
            i <= n,
            forall|c: char| f.requires((c,)),
            valid_utf8(d@.take(i as int)),
            valid_utf8(d@.skip(i as int)),
            i == n || !is_continuation_byte(d@[i as int]),
            all_chars(*f, decode_utf8(d@.take(i as int)), !want),
        ensures
            i <= n,
            i == n || !is_continuation_byte(d@[i as int]),
            all_chars(*f, decode_utf8(d@.take(i as int)), !want),
            i < n ==> f.ensures((decode_utf8(d@.skip(i as int))[0],), want),
        decreases n - i,
    {
        let rest = &d[i..n];
        proof {
            assert(rest@ =~= d@.skip(i as int));
        }
        let (c, w) = next_char(rest);
        proof {
            lemma_first_scalar_alone(rest@);
            assert(decode_utf8(rest@)[0] == c);
        }
        if f(c) == want {
            break;
        }
        proof {
            let pre = d@.take(i as int);
            let t = rest@.take(w as int);
            lemma_decode_concat(pre, t);
            assert(pre + t =~= d@.take(i + w));
            assert(rest@.skip(w as int) =~= d@.skip(i + w));
            let old_chars = decode_utf8(pre);
            assert(decode_utf8(pre + t) =~= old_chars.push(c));
            if i + w < n {
                crate::slices::lemma_utf8_first_not_continuation(rest@.skip(w as int));
                assert(d@[i + w] == rest@.skip(w as int)[0]);
            }
        }
        i = i + w;
    }
    i
}

/// A wrapper around a [`ByteData`] that is guaranteed to be valid UTF-8.
///
/// `StringData<'a>` is to `ByteData<'a>` what `&'a str` is to `&'a [u8]`.
pub struct StringData<'a> {
    data: ByteData<'a>,
}

impl<'a> View for StringData<'a> {
    type V = Seq<u8>;

    closed spec fn view(&self) -> Seq<u8> {
        self.data@
    }
}

impl<'a> StringData<'a> {
    #[verifier::type_invariant]
    spec fn inv(self) -> bool {
        valid_utf8(self.data@)
    }

    /// The characters of the text.
    pub open spec fn spec_chars(&self) -> Seq<char> {
        decode_utf8(self@)
    }

    /// The text lives at least as long as the program: it is inline, static or owned.
    pub closed spec fn spec_is_owned_or_static(&self) -> bool {
        self.data.spec_is_owned_or_static()
    }

    /// How the text is held.
    pub closed spec fn spec_kind(&self) -> Kind {
        self.data.spec_kind()
    }

    /// Every text is valid UTF-8.
    pub fn check_valid(&self)
        ensures
            valid_utf8(self@),
    {
        proof {
            use_type_invariant(self);
        }
    }

    /// Returns an empty `StringData`.
    pub fn empty() -> (res: Self)
        ensures
            res@ == Seq::<u8>::empty(),
    {
        let data = ByteData::empty();
        proof {
            assert(valid_utf8(data@));
        }
        StringData { data }
    }

    /// Creates a `StringData` from a static str.
    pub fn from_static(dat: &'static str) -> (res: Self)
        ensures
            res@ == dat.spec_bytes(),
            res.spec_is_owned_or_static(),
    {
        proof {
            encode_utf8_valid_utf8(dat@);
        }
        StringData { data: ByteData::from_static(dat.as_bytes()) }
    }

    /// Creates a `StringData` from a borrowed str.
    pub fn from_borrowed(dat: &'a str) -> (res: Self)
        ensures
            res@ == dat.spec_bytes(),
    {
        proof {
            encode_utf8_valid_utf8(dat@);
        }
        StringData { data: ByteData::from_borrowed(dat.as_bytes()) }
    }

    /// Creates a `StringData` holding the given strs one after the other.
    /// Their total length must fit in a shared buffer.
    pub fn from_concat(dat: &[&'a str]) -> (res: Self)
        requires
            concat_strs(dat@).len() + 12 <= 0xFFFF_FFFF,
        ensures
            res@ == concat_strs(dat@),
    {
        if dat.len() == 0 {
            let res = Self::empty();
            assert(res@ =~= concat_strs(dat@));
            return res;
        }
        if dat.len() == 1 {
            proof {
                assert(dat@.take(1) =~= dat@);
                lemma_concat_strs_push(dat@, 0);
                assert(dat@.take(0) =~= Seq::<&str>::empty());
                assert(concat_strs(Seq::<&str>::empty()) =~= Seq::<u8>::empty());
            }
            return Self::from_borrowed(dat[0]);
        }
        let mut buf = crate::shared_str_builder::SharedStrBuilder::new();
        let mut i: usize = 0;
        proof {
            crate::shared_bytes_builder::lemma_small_pow2s();
            assert(dat@.take(0) =~= Seq::<&str>::empty());
            lemma_concat_strs_prefix(dat@, 0);
        }
        while i < dat.len()
            invariant
                i <= dat@.len(),
                buf@ == concat_strs(dat@.take(i as int)),
                concat_strs(dat@).len() + 12 <= 0xFFFF_FFFF,
                buf.spec_align() == 4,
            decreases dat@.len() - i,
        {
            proof {
                lemma_concat_strs_push(dat@, i as int);
                lemma_concat_strs_prefix(dat@, i + 1);
            }
            buf.push_str(dat[i]);
            i += 1;
        }
        proof {
            assert(dat@.take(i as int) =~= dat@);
        }
        buf.build_str()
    }

    /// Creates a `StringData` from a `SharedBytes`.
    ///
    /// # Errors
    ///
    /// Returns the input if the data is not valid UTF-8.
    pub fn try_from_shared(dat: SharedBytes) -> (res: Result<Self, SharedBytes>)
        ensures
            res is Ok <==> valid_utf8(dat@),
            match res {
                Ok(s) => s@ == dat@,
                Err(e) => e@ == dat@,
            },
    {
        if str_from_utf8(dat.as_slice()).is_err() {
            return Err(dat);
        }
        Ok(StringData { data: ByteData::from_shared(dat) })
    }

    /// Creates a `StringData` from `ByteData`.
    ///
    /// # Errors
    ///
    /// Returns the input if the data is not valid UTF-8.
    pub fn try_from_bytedata(dat: ByteData<'a>) -> (res: Result<Self, ByteData<'a>>)
        ensures
            res is Ok <==> valid_utf8(dat@),
            match res {
                Ok(s) => s@ == dat@,
                Err(e) => e@ == dat@,
            },
    {
        if str_from_utf8(dat.as_slice()).is_err() {
            return Err(dat);
        }
        Ok(StringData { data: dat })
    }

    /// Creates a `StringData` from `ByteData` that is valid UTF-8.
    /// Prefer [`StringData::try_from_bytedata`] if you are unsure.
    pub fn from_bytedata_unchecked(dat: ByteData<'a>) -> (res: Self)
        requires
            valid_utf8(dat@),
        ensures
            res@ == dat@,
    {
        StringData { data: dat }
    }

    /// Returns the underlying [`ByteData`].
    pub fn into_bytedata(self) -> (res: ByteData<'a>)
        ensures
            res@ == self@,
            self.spec_is_owned_or_static() ==> res.spec_is_owned_or_static(),
    {
        let StringData { data } = self;
        data
    }

    /// Returns a reference to the underlying [`ByteData`].
    pub fn as_bytedata(&self) -> (res: &ByteData<'a>)
        ensures
            res@ == self@,
    {
        &self.data
    }

    /// Creates a `StringData` from a `String`.
    pub fn from_owned(dat: String) -> (res: Self)
        ensures
            res@ == string_bytes(&dat),
    {
        proof {
            encode_utf8_valid_utf8(dat@);
        }
        let bytes = string_into_bytes(dat);
        StringData { data: ByteData::from_owned(bytes) }
    }

    /// Creates a `StringData` from a `Cow<'_, str>`.
    pub fn from_cow(dat: Cow<'a, str>) -> (res: Self)
        ensures
            res@ == match dat {
                Cow::Borrowed(b) => b.spec_bytes(),
                Cow::Owned(o) => string_bytes(&o),
            },
    {
        match dat {
            Cow::Borrowed(borr) => Self::from_borrowed(borr),
            Cow::Owned(ow) => Self::from_owned(ow),
        }
    }

    /// Creates a `StringData` from a `Cow<'static, str>`.
    pub fn from_cow_static(dat: Cow<'static, str>) -> (res: Self)
        ensures
            res@ == match dat {
                Cow::Borrowed(b) => b.spec_bytes(),
                Cow::Owned(o) => string_bytes(&o),
            },
    {
        match dat {
            Cow::Borrowed(borr) => Self::from_static(borr),
            Cow::Owned(ow) => Self::from_owned(ow),
        }
    }

    /// Returns the underlying byte slice.
    pub fn as_bytes(&self) -> (res: &[u8])
        ensures
            res@ == self@,
            valid_utf8(res@),
    {
        proof {
            use_type_invariant(self);
        }
        self.data.as_slice()
    }

    /// Returns the underlying string where it is borrowed or static.
    pub fn as_borrowed(&self) -> (res: Option<&'a str>)
        ensures
            res matches Some(s) ==> s.spec_bytes() == self@,
            res is Some <==> self.spec_kind() == Kind::Slice,
    {
        proof {
            use_type_invariant(self);
        }
        match self.data.as_borrowed() {
            Some(buf) => match str_from_utf8(buf) {
                Ok(s) => Some(s),
                Err(_) => None,
            },
            None => None,
        }
    }

    /// Returns the underlying `str`.
    pub fn as_str(&self) -> (res: &str)
        ensures
            res.spec_bytes() == self@,
            res@ == self.spec_chars(),
    {
        proof {
            use_type_invariant(self);
        }
        match str_from_utf8(self.data.as_slice()) {
            Ok(s) => {
                proof {
                    decode_utf8_encode_utf8(self@);
                    encode_utf8_decode_utf8(s@);
                }
                s
            },
            Err(_) => {
                proof {
                    assert(false);
                }
                ""
            },
        }
    }

    /// Returns the length of the underlying byte slice.
    pub fn len(&self) -> (res: usize)
        ensures
            res == self@.len(),
    {
        self.data.len()
    }

    /// Returns `true` if the underlying byte slice is empty.
    pub fn is_empty(&self) -> (res: bool)
        ensures
            res == (self@.len() == 0),
    {
        self.data.is_empty()
    }

    /// Check if the underlying byte slice is equal to another.
    pub fn eq_const(&self, other: &StringData<'_>) -> (res: bool)
        ensures
            res == (self@ == other@),
    {
        crate::slices::const_eq(self.as_bytes(), other.as_bytes())
    }

    /// Check if the underlying byte slice is equal to another.
    pub fn eq_slice(&self, other: &[u8]) -> (res: bool)
        ensures
            res == (self@ == other@),
    {
        crate::slices::const_eq(self.as_bytes(), other)
    }

    /// Check if the underlying text is equal to a `str`.
    pub fn eq_str(&self, other: &str) -> (res: bool)
        ensures
            res == (self@ == other.spec_bytes()),
    {
        crate::slices::const_eq(self.as_bytes(), other.as_bytes())
    }

    /// Check if the ending of a `StringData` matches the given str.
    pub fn ends_with(&self, needle: &str) -> (res: bool)
        ensures
            res == needle.spec_bytes().is_suffix_of(self@),
    {
        crate::slices::const_ends_with(self.as_bytes(), needle.as_bytes())
    }

    /// Check if the beginning of a `StringData` matches the given str.
    pub fn starts_with(&self, needle: &str) -> (res: bool)
        ensures
            res == needle.spec_bytes().is_prefix_of(self@),
    {
        crate::slices::const_starts_with(self.as_bytes(), needle.as_bytes())
    }

    /// Trim whitespace from the beginning of the `StringData`.
    pub fn trim_start(&self) -> (res: Self)
        ensures
            exists|k: int|
                #![trigger self@.skip(k)]
                0 <= k <= self@.len() && res@ == self@.skip(k) && all_white_space(
                    decode_utf8(self@.take(k)),
                ) && (k < self@.len() ==> !is_white_space(decode_utf8(self@.skip(k))[0])) && (k
                    == self@.len() || !is_continuation_byte(self@[k])),
    {
        proof {
            use_type_invariant(self);
        }
        let ws = |c: char| -> (r: bool)
            ensures
                r == is_white_space(c),
            { char_is_whitespace(c) };
        let d = self.as_bytes();
        let k = prefix_until(d, &ws, false);
        let n = d.len();
        proof {
            is_char_boundary_start_end_of_seq(d@);
        }
        let res = self.sliced(k..n);
        proof {
            assert(d@.subrange(k as int, n as int) =~= d@.skip(k as int));
            assert(all_white_space(decode_utf8(d@.take(k as int))));
        }
        res
    }

    /// Trim whitespace from the end of the `StringData`.
    pub fn trim_end(&self) -> (res: Self)
        ensures
            exists|k: int|
                #![trigger self@.take(k)]
                0 <= k <= self@.len() && res@ == self@.take(k) && all_white_space(
                    decode_utf8(self@.skip(k)),
                ) && (k > 0 ==> !is_white_space(decode_utf8(self@.take(k)).last())) && (k
                    == self@.len() || !is_continuation_byte(self@[k])),
    {
        proof {
            use_type_invariant(self);
        }
        let d = self.as_bytes();
        let n = d.len();
        let mut i: usize = 0;
        let mut end: usize = 0;
        proof {
            assert(d@.take(0) =~= Seq::<u8>::empty());
            assert(decode_utf8(Seq::<u8>::empty()) =~= Seq::<char>::empty());
            assert(d@.skip(0) =~= d@);
            assert(d@.subrange(0, 0) =~= Seq::<u8>::empty());
        }
        while i < n
            invariant
                n == d@.len(),
                end <= i <= n,
                valid_utf8(d@),
                valid_utf8(d@.take(i as int)),
                valid_utf8(d@.skip(i as int)),
                valid_utf8(d@.take(end as int)),
                valid_utf8(d@.subrange(end as int, i as int)),
                decode_utf8(d@.take(i as int)) == decode_utf8(d@.take(end as int)) + decode_utf8(
                    d@.subrange(end as int, i as int),
                ),
                i == n || !is_continuation_byte(d@[i as int]),
                end == n || !is_continuation_byte(d@[end as int]),
                all_white_space(decode_utf8(d@.subrange(end as int, i as int))),
                end > 0 ==> !is_white_space(decode_utf8(d@.take(end as int)).last()),
            decreases n - i,
        {
            let rest = &d[i..n];
            proof {
                assert(rest@ =~= d@.skip(i as int));
            }
            let (c, w) = next_char(rest);
            proof {
                lemma_first_scalar_alone(rest@);
                let t = rest@.take(w as int);
                let pre = d@.take(i as int);
                lemma_decode_concat(pre, t);
                assert(pre + t =~= d@.take(i + w));
                assert(rest@.skip(w as int) =~= d@.skip(i + w));
                assert(decode_utf8(pre + t) =~= decode_utf8(pre).push(c));
                let mid = d@.subrange(end as int, i as int);
                lemma_decode_concat(mid, t);
                assert(mid + t =~= d@.subrange(end as int, i + w));
                assert(decode_utf8(mid + t) =~= decode_utf8(mid).push(c));
                if i + w < n {
                    crate::slices::lemma_utf8_first_not_continuation(rest@.skip(w as int));
                    assert(d@[i + w] == rest@.skip(w as int)[0]);
                }
            }
            if !char_is_whitespace(c) {
                proof {
                    assert(d@.subrange(i + w, i + w) =~= Seq::<u8>::empty());
                    assert(decode_utf8(Seq::<u8>::empty()) =~= Seq::<char>::empty());
                    assert(decode_utf8(d@.take(i + w)) =~= decode_utf8(d@.take(i + w))
                        + decode_utf8(d@.subrange(i + w, i + w)));
                }
                end = i + w;
            } else {
                proof {
                    assert(decode_utf8(d@.take(i + w)) =~= decode_utf8(d@.take(end as int))
                        + decode_utf8(d@.subrange(end as int, i + w)));
                }
            }
            i = i + w;
        }
        proof {
            assert(d@.take(n as int) =~= d@);
            assert(d@.subrange(end as int, n as int) =~= d@.skip(end as int));
            assert(d@.subrange(0, end as int) =~= d@.take(end as int));
            is_char_boundary_start_end_of_seq(d@);
        }
        self.sliced(0..end)
    }

    /// Trim whitespace from the beginning and end of the `StringData`.
    pub fn trim(&self) -> (res: Self)
        ensures
            exists|a: int, b: int|
                #![trigger self@.subrange(a, b)]
                0 <= a <= b <= self@.len() && res@ == self@.subrange(a, b) && all_white_space(
                    decode_utf8(self@.take(a)),
                ) && all_white_space(decode_utf8(self@.skip(b))) && (a < b ==> !is_white_space(
                    decode_utf8(self@.subrange(a, b))[0],
                ) && !is_white_space(decode_utf8(self@.subrange(a, b)).last())) && (a
                    == self@.len() || !is_continuation_byte(self@[a])) && (b == self@.len()
                    || !is_continuation_byte(self@[b])),
    {
        proof {
            use_type_invariant(self);
        }
        let s = self.trim_start();
        let t = s.trim_end();
        s.check_valid();
        proof {
            let k = choose|k: int|
                #![trigger self@.skip(k)]
                0 <= k <= self@.len() && s@ == self@.skip(k) && all_white_space(
                    decode_utf8(self@.take(k)),
                ) && (k < self@.len() ==> !is_white_space(decode_utf8(self@.skip(k))[0])) && (k
                    == self@.len() || !is_continuation_byte(self@[k]));
            let j = choose|j: int|
                #![trigger s@.take(j)]
                0 <= j <= s@.len() && t@ == s@.take(j) && all_white_space(decode_utf8(s@.skip(j)))
                    && (j > 0 ==> !is_white_space(decode_utf8(s@.take(j)).last())) && (j
                    == s@.len() || !is_continuation_byte(s@[j]));
            assert(t@ =~= self@.subrange(k, k + j));
            assert(s@.skip(j) =~= self@.skip(k + j));
            if j > 0 {
                assert(s@.take(j) =~= self@.subrange(k, k + j));
                lemma_split_decode(s@, j);
                lemma_first_scalar_alone(s@);
                lemma_first_scalar_alone(s@.take(j));
                assert(decode_utf8(s@)[0] == decode_utf8(s@.take(j))[0]);
            }
            assert(self@.subrange(k, k + j) == t@);
            if k + j < self@.len() {
                assert(j < s@.len());
                assert(s@[j] == self@[k + j]);
            }
        }
        t
    }

    /// Where `start..end` lies within the text and falls on character starts (or the end).
    pub open spec fn valid_range(&self, start: int, end: int) -> bool {
        &&& 0 <= start <= end <= self@.len()
        &&& (start == self@.len() || !is_continuation_byte(self@[start]))
        &&& (end == self@.len() || !is_continuation_byte(self@[end]))
    }

    /// Returns a `StringData` with the given range of bytes, which must fall on
    /// character boundaries.
    pub fn sliced(&self, range: core::ops::Range<usize>) -> (res: Self)
        requires
            self.valid_range(range.start as int, range.end as int),
        ensures
            res@ == self@.subrange(range.start as int, range.end as int),
            self.spec_is_owned_or_static() ==> res.spec_is_owned_or_static(),
    {
        proof {
            use_type_invariant(self);
            lemma_valid_subrange(self@, range.start as int, range.end as int);
        }
        let data = self.data.sliced(range);
        StringData { data }
    }

    /// Transform the range of bytes this `StringData` represents; the range must
    /// fall on character boundaries.
    pub fn into_sliced(self, range: core::ops::Range<usize>) -> (res: Self)
        requires
            self.valid_range(range.start as int, range.end as int),
        ensures
            res@ == self@.subrange(range.start as int, range.end as int),
            self.spec_is_owned_or_static() ==> res.spec_is_owned_or_static(),
    {
        proof {
            use_type_invariant(&self);
            lemma_valid_subrange(self@, range.start as int, range.end as int);
        }
        let StringData { data } = self;
        StringData { data: data.into_sliced(range) }
    }

    /// Transform the range of bytes this `StringData` represents; the range must
    /// fall on character boundaries.
    pub fn make_sliced(&mut self, range: core::ops::Range<usize>)
        requires
            old(self).valid_range(range.start as int, range.end as int),
        ensures
            final(self)@ == old(self)@.subrange(range.start as int, range.end as int),
            old(self).spec_is_owned_or_static() ==> final(self).spec_is_owned_or_static(),
    {
        let mut taken = StringData::empty();
        core::mem::swap(self, &mut taken);
        *self = taken.into_sliced(range);
    }

    /// Splits off the first `position` bytes, which must end on a character
    /// boundary, and returns them; the rest stays.
    fn take_bytes(&mut self, position: usize) -> (res: Self)
        requires
            position <= old(self)@.len(),
            position == old(self)@.len() || !is_continuation_byte(old(self)@[position as int]),
        ensures
            res@ == old(self)@.take(position as int),
            final(self)@ == old(self)@.skip(position as int),
            old(self).spec_is_owned_or_static() ==> final(self).spec_is_owned_or_static()
                && res.spec_is_owned_or_static(),
    {
        proof {
            use_type_invariant(&*self);
            lemma_split_decode(self@, position as int);
        }
        let mut taken = StringData::empty();
        core::mem::swap(self, &mut taken);
        let StringData { data } = taken;
        let mut data = data;
        let front = data.take_bytes(position);
        *self = StringData { data };
        StringData { data: front }
    }

    /// Consume the `StringData` while the char condition holds, returning the
    /// characters that met it.
    pub fn take_while<F: Fn(char) -> bool>(&mut self, fun: F) -> (res: Self)
        requires
            forall|c: char| fun.requires((c,)),
        ensures
            res@ + final(self)@ == old(self)@,
            all_chars(fun, res.spec_chars(), true),
            final(self)@.len() > 0 ==> fun.ensures((final(self).spec_chars()[0],), false),
    {
        proof {
            use_type_invariant(&*self);
        }
        let position = prefix_until(self.as_bytes(), &fun, false);
        let ghost before = self@;
        let res = self.take_bytes(position);
        proof {
            assert(res@ + self@ =~= before);
        }
        res
    }

    /// Takes and removes the first line from the string.
    /// If a newline (`'\n'`) is found, the returned string will contain all data
    /// up to, and including, the newline. Otherwise it contains all the data.
    pub fn take_line(&mut self) -> (res: Self)
        ensures
            res@ + final(self)@ == old(self)@,
            res@.len() > 0 ==> !res@.take(res@.len() - 1).contains(10u8),
            final(self)@.len() > 0 ==> res@.len() > 0 && res@.last() == 10u8,
            !old(self)@.contains(10u8) ==> final(self)@.len() == 0,
    {
        proof {
            use_type_invariant(&*self);
        }
        let ghost before = self@;
        match crate::slices::const_split_once_byte(self.as_bytes(), 10u8) {
            None => {
                let mut res = StringData::empty();
                core::mem::swap(self, &mut res);
                proof {
                    assert(res@ + self@ =~= before);
                    if res@.len() > 0 {
                        let t = res@.take(res@.len() - 1);
                        if t.contains(10u8) {
                            let k = choose|k: int| 0 <= k < t.len() && #[trigger] t[k] == 10u8;
                            assert(before[k] == 10u8);
                            assert(before.contains(10u8));
                        }
                    }
                }
                res
            },
            Some((a, _)) => {
                let total = self.len();
                proof {
                    assert(a@.len() < total);
                }
                let position = a.len() + 1;
                proof {
                    assert(before[a@.len() as int] == 10u8);
                    if position < before.len() {
                        crate::slices::lemma_utf8_after_ascii(before, a@.len() as int);
                    }
                }
                let res = self.take_bytes(position);
                proof {
                    assert(res@ + self@ =~= before);
                    assert(res@.take(res@.len() - 1) =~= a@);
                }
                res
            },
        }
    }

    /// Split the `StringData` at the given position, which must fall on a
    /// character boundary.
    pub fn split_at(self, position: usize) -> (res: (Self, Self))
        requires
            position <= self@.len(),
            position == self@.len() || !is_continuation_byte(self@[position as int]),
        ensures
            res.0@ == self@.take(position as int),
            res.1@ == self@.skip(position as int),
    {
        let mut this = self;
        let av = this.take_bytes(position);
        (av, this)
    }

    /// Split the `StringData` at the first occurrence of the given str.
    /// The occurrence stays at the front of the second part.
    ///
    /// # Errors
    ///
    /// Returns the input if the `needle` is not found.
    pub fn split_once_on(self, needle: &str) -> (res: Result<(Self, Self), Self>)
        ensures
            res is Err <==> never_occurs(self@, needle.spec_bytes()),
            res matches Err(e) ==> e@ == self@,
            res matches Ok((a, b)) ==> {
                &&& a@ + b@ == self@
                &&& first_occurrence(self@, needle.spec_bytes(), a@.len() as int)
            },
    {
        proof {
            use_type_invariant(&self);
        }
        let aa = match crate::slices::const_split_once_bytes(self.as_bytes(), needle.as_bytes()) {
            Some((aa, _)) => aa.len(),
            None => return Err(self),
        };
        proof {
            let h = self@;
            let n = needle.spec_bytes();
            encode_utf8_valid_utf8(needle@);
            if aa < h.len() && n.len() > 0 {
                crate::slices::lemma_utf8_first_not_continuation(n);
                assert(h[aa as int] == h.subrange(aa as int, aa + n.len())[0]);
            } else if aa < h.len() {
                assert(h.subrange(0, 0) =~= n);
                assert(crate::slices::occurs_at(h, n, 0));
            }
        }
        let ghost before = self@;
        let (a, b) = self.split_at(aa);
        assert(a@ + b@ =~= before);
        Ok((a, b))
    }

    /// Iterates over the parts of the `StringData` between occurrences of `needle`.
    pub fn split_on<'b>(self, needle: &'b str) -> (res: StringDataSplit<'a, 'b>)
        ensures
            res.spec_rest() == self@,
            res.spec_needle() == needle.spec_bytes(),
            !res.spec_trailing(),
    {
        proof {
            use_type_invariant(&self);
            encode_utf8_valid_utf8(needle@);
        }
        let needle_bytes = needle.as_bytes();
        let StringData { data } = self;
        StringDataSplit { inner: data.split_on(needle_bytes) }
    }

    /// Transform any borrowed text into owned or static text.
    /// This is useful when you wish to change the lifetime of the text.
    /// A long borrowed text is copied into a shared buffer, so it must fit in one.
    pub fn into_shared<'s>(self) -> (res: StringData<'s>)
        requires
            !self.spec_is_owned_or_static() ==> self@.len() + 12 <= 0xFFFF_FFFF,
        ensures
            res@ == self@,
            res.spec_is_owned_or_static(),
    {
        proof {
            use_type_invariant(&self);
        }
        let StringData { data } = self;
        StringData { data: data.into_shared() }
    }

    /// Transform any borrowed text into owned or static text of a specific range,
    /// which must fall on character boundaries.
    /// A long borrowed range is copied into a shared buffer, so it must fit in one.
    pub fn into_shared_range<'s>(self, range: core::ops::Range<usize>) -> (res: StringData<'s>)
        requires
            self.valid_range(range.start as int, range.end as int),
            !self.spec_is_owned_or_static() ==> range.end - range.start + 12 <= 0xFFFF_FFFF,
        ensures
            res@ == self@.subrange(range.start as int, range.end as int),
            res.spec_is_owned_or_static(),
    {
        proof {
            use_type_invariant(&self);
            lemma_valid_subrange(self@, range.start as int, range.end as int);
        }
        let StringData { data } = self;
        StringData { data: data.into_shared_range(range) }
    }

    /// Iterate over the characters of the `StringData`.
    pub fn iter(&self) -> (res: core::str::Chars<'_>)
        ensures
            vstd::string::into_iter_elts(res) == self.spec_chars(),
    {
        let s = self.as_str();
        proof {
            vstd::string::axiom_spec_iter(s);
        }
        s.chars()
    }

    /// Removes and returns the first character, or `None` when the text is empty.
    pub fn next(&mut self) -> (res: Option<char>)
        ensures
            old(self)@.len() == 0 ==> res is None && final(self)@ == old(self)@,
            old(self)@.len() > 0 ==> res == Some(old(self).spec_chars()[0]) && final(self).spec_chars()
                == old(self).spec_chars().drop_first(),
    {
        proof {
            use_type_invariant(&*self);
        }
        if self.is_empty() {
            return None;
        }
        let (c, w) = next_char(self.as_bytes());
        proof {
            lemma_first_scalar_alone(self@);
            let rest = self@.skip(w as int);
            if w < self@.len() {
                crate::slices::lemma_utf8_first_not_continuation(rest);
                assert(self@[w as int] == rest[0]);
            }
        }
        let n = self.len();
        let ghost before = self@;
        self.make_sliced(w..n);
        proof {
            assert(self@ =~= before.skip(w as int));
            assert(decode_utf8(before).drop_first() =~= decode_utf8(before.skip(w as int)));
        }
        Some(c)
    }
}

impl StringData<'static> {
    /// Forces any borrowed str to be marked as static.
    pub fn statically_borrowed(self) -> (res: Self)
        ensures
            res@ == self@,
            res.spec_is_owned_or_static(),
    {
        proof {
            use_type_invariant(&self);
        }
        let StringData { data } = self;
        StringData { data: data.statically_borrowed() }
    }
}

/// Where valid UTF-8 `s` starts with valid UTF-8 `n`, the end of `n` is the
/// start of a character of `s` (or the end of `s`).
proof fn lemma_valid_prefix_boundary(s: Seq<u8>, n: Seq<u8>)
    requires
        valid_utf8(s),
        valid_utf8(n),
        n.len() <= s.len(),
        s.take(n.len() as int) == n,
    ensures
        n.len() == s.len() || !is_continuation_byte(s[n.len() as int]),
    decreases n.len(),
{
    if n.len() == 0 {
        if s.len() > 0 {
            crate::slices::lemma_utf8_first_not_continuation(s);
        }
    } else {
        assert(n[0] == s[0]);
        let w = length_of_first_scalar(n);
        assert(length_of_first_scalar(s) == w);
        assert(1 <= w <= n.len());
        let n2 = n.skip(w);
        let s2 = s.skip(w);
        assert(pop_first_scalar(n) == n2);
        assert(pop_first_scalar(s) == s2);
        assert(s2.take(n2.len() as int) =~= n2);
        lemma_valid_prefix_boundary(s2, n2);
        if n.len() < s.len() {
            assert(s[n.len() as int] == s2[n2.len() as int]);
        }
    }
}

/// The parts of a [`StringData`] between occurrences of a `str`.
pub struct StringDataSplit<'a, 'b> {
    inner: ByteDataSplit<'a, 'b>,
}

impl<'a, 'b> StringDataSplit<'a, 'b> {
    #[verifier::type_invariant]
    spec fn inv(self) -> bool {
        &&& valid_utf8(self.inner.spec_rest())
        &&& valid_utf8(self.inner.spec_needle())
    }

    /// The text not yet handed out.
    pub closed spec fn spec_rest(&self) -> Seq<u8> {
        self.inner.spec_rest()
    }

    /// The separator.
    pub closed spec fn spec_needle(&self) -> Seq<u8> {
        self.inner.spec_needle()
    }

    /// Whether a separator was consumed at the very end of the text, so that
    /// one empty part is still to come.
    pub closed spec fn spec_trailing(&self) -> bool {
        self.inner.spec_trailing()
    }

    /// The next part; see [`ByteDataSplit::next`].
    pub fn next(&mut self) -> (res: Option<StringData<'a>>)
        ensures
            final(self).spec_needle() == old(self).spec_needle(),
            old(self).spec_rest().len() == 0 && !old(self).spec_trailing() ==> res is None
                && final(self).spec_rest() == old(self).spec_rest()
                && !final(self).spec_trailing(),
            old(self).spec_rest().len() == 0 && old(self).spec_trailing() ==> {
                &&& res matches Some(p) && p@ == Seq::<u8>::empty()
                &&& final(self).spec_rest() == Seq::<u8>::empty()
                &&& !final(self).spec_trailing()
            },
            old(self).spec_rest().len() > 0 && (old(self).spec_needle().len() == 0 || never_occurs(
                old(self).spec_rest(),
                old(self).spec_needle(),
            )) ==> {
                &&& res matches Some(p) && p@ == old(self).spec_rest()
                &&& final(self).spec_rest() == Seq::<u8>::empty()
                &&& !final(self).spec_trailing()
            },
            forall|p: int|
                old(self).spec_rest().len() > 0 && old(self).spec_needle().len() > 0
                    && first_occurrence(old(self).spec_rest(), old(self).spec_needle(), p) ==> {
                    &&& res matches Some(part) && part@ == old(self).spec_rest().take(p)
                    &&& final(self).spec_rest() == old(self).spec_rest().skip(
                        p + old(self).spec_needle().len(),
                    )
                    &&& final(self).spec_trailing() == (final(self).spec_rest().len() == 0)
                },
            res is Some ==> final(self).spec_rest().len() < old(self).spec_rest().len() || (
            old(self).spec_trailing() && !final(self).spec_trailing()),
            split_parts(old(self).spec_rest(), old(self).spec_needle(), old(self).spec_trailing())
                == match res {
                Some(p) => seq![p@] + split_parts(
                    final(self).spec_rest(),
                    final(self).spec_needle(),
                    final(self).spec_trailing(),
                ),
                None => Seq::<Seq<u8>>::empty(),
            },
    {
        proof {
            use_type_invariant(&*self);
        }
        let ghost before = self.inner.spec_rest();
        let ghost needle = self.inner.spec_needle();
        let mut taken = StringDataSplit { inner: ByteData::empty().split_on(&[]) };
        proof {
            assert(valid_utf8(Seq::<u8>::empty()));
        }
        core::mem::swap(self, &mut taken);
        let mut inner = taken.inner;
        let part = inner.next();
        proof {
            assert(valid_utf8(Seq::<u8>::empty()));
            if before.len() > 0 && needle.len() > 0 && !never_occurs(before, needle) {
                let p = choose|q: int| crate::slices::occurs_at(before, needle, q);
                let f = crate::slices::lemma_find_first(before, needle, p);
                let n = needle;
                crate::slices::lemma_utf8_first_not_continuation(n);
                if f < before.len() {
                    assert(before[f] == before.subrange(f, f + n.len())[0]);
                }
                lemma_split_decode(before, f);
                let tail = before.skip(f);
                assert(tail.take(n.len() as int) =~= n);
                lemma_valid_prefix_boundary(tail, n);
                lemma_split_decode(tail, n.len() as int);
                assert(tail.skip(n.len() as int) =~= before.skip(f + n.len()));
            }
        }
        let res = match part {
            Some(p) => Some(StringData { data: p }),
            None => None,
        };
        *self = StringDataSplit { inner };
        res
    }
}

impl<'a> Clone for StringData<'a> {
    fn clone(&self) -> (res: Self)
        ensures
            res@ == self@,
    {
        proof {
            use_type_invariant(self);
        }
        StringData { data: self.data.clone() }
    }
}

impl<'a> PartialEq for StringData<'a> {
    fn eq(&self, other: &Self) -> (res: bool) {
        self.eq_const(other)
    }
}

impl<'a> vstd::std_specs::cmp::PartialEqSpecImpl for StringData<'a> {
    open spec fn obeys_eq_spec() -> bool {
        true
    }

    open spec fn eq_spec(&self, other: &Self) -> bool {
        self@ == other@
    }
}

impl<'a> Eq for StringData<'a> {

}

impl<'a> Default for StringData<'a> {
    fn default() -> (res: Self)
        ensures
            res@ == Seq::<u8>::empty(),
    {
        Self::empty()
    }
}

impl<'a> From<&'a str> for StringData<'a> {
    fn from(dat: &'a str) -> (res: Self)
        ensures
            res@ == dat.spec_bytes(),
    {
        Self::from_borrowed(dat)
    }
}

impl<'a> vstd::std_specs::convert::FromSpecImpl<&'a str> for StringData<'a> {
    open spec fn obeys_from_spec() -> bool {
        false
    }

    open spec fn from_spec(v: &'a str) -> Self {
        vstd::pervasive::arbitrary()
    }
}

impl<'a> From<String> for StringData<'a> {
    fn from(dat: String) -> (res: Self)
        ensures
            res@ == string_bytes(&dat),
    {
        Self::from_owned(dat)
    }
}

impl<'a> vstd::std_specs::convert::FromSpecImpl<String> for StringData<'a> {
    open spec fn obeys_from_spec() -> bool {
        false
    }

    open spec fn from_spec(v: String) -> Self {
        vstd::pervasive::arbitrary()
    }
}

impl<'a> From<StringData<'a>> for ByteData<'a> {
    fn from(dat: StringData<'a>) -> (res: Self)
        ensures
            res@ == dat@,
    {
        dat.into_bytedata()
    }
}

impl<'a> vstd::std_specs::convert::FromSpecImpl<StringData<'a>> for ByteData<'a> {
    open spec fn obeys_from_spec() -> bool {
        false
    }

    open spec fn from_spec(v: StringData<'a>) -> Self {
        vstd::pervasive::arbitrary()
    }
}

impl<'a> From<StringData<'a>> for String {
    fn from(dat: StringData<'a>) -> (res: Self)
        ensures
            string_bytes(&res) == dat@,
    {
        dat.check_valid();
        let v = dat.into_bytedata().into_vec();
        string_from_utf8(v)
    }
}

impl<'a> vstd::std_specs::convert::FromSpecImpl<StringData<'a>> for String {
    open spec fn obeys_from_spec() -> bool {
        false
    }

    open spec fn from_spec(v: StringData<'a>) -> Self {
        vstd::pervasive::arbitrary()
    }
}

impl<'a> From<StringData<'a>> for Vec<u8> {
    fn from(dat: StringData<'a>) -> (res: Self)
        ensures
            res@ == dat@,
    {
        dat.into_bytedata().into_vec()
    }
}

impl<'a> vstd::std_specs::convert::FromSpecImpl<StringData<'a>> for Vec<u8> {
    open spec fn obeys_from_spec() -> bool {
        false
    }

    open spec fn from_spec(v: StringData<'a>) -> Self {
        vstd::pervasive::arbitrary()
    }
}

/// The bytes of a list of strs, one after the other.
pub open spec fn concat_strs(strs: Seq<&str>) -> Seq<u8>
    decreases strs.len(),
{
    if strs.len() == 0 {
        Seq::empty()
    } else {
        concat_strs(strs.drop_last()) + strs.last().spec_bytes()
    }
}

proof fn lemma_concat_strs_push(strs: Seq<&str>, i: int)
    requires
        0 <= i < strs.len(),
    ensures
        concat_strs(strs.take(i + 1)) == concat_strs(strs.take(i)) + strs[i].spec_bytes(),
{
    assert(strs.take(i + 1).drop_last() =~= strs.take(i));
}

proof fn lemma_concat_strs_prefix(strs: Seq<&str>, i: int)
    requires
        0 <= i <= strs.len(),
    ensures
        concat_strs(strs.take(i)).len() <= concat_strs(strs).len(),
    decreases strs.len() - i,
{
    if i < strs.len() {
        lemma_concat_strs_push(strs, i);
        lemma_concat_strs_prefix(strs, i + 1);
    } else {
        assert(strs.take(i) =~= strs);
    }
}

} // verus!
