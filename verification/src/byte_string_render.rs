//! Rendering bytes as an escaped byte string.
use vstd::prelude::*;
use vstd::string::StringSliceAdditionalSpecFns;
use vstd::utf8::*;

use crate::stringdata::{string_bytes, string_from_utf8};

verus! {

/// The lowercase hexadecimal digit of a value below 16.
pub open spec fn hex_digit_lower(n: u8) -> u8 {
    if n < 10 {
        (0x30 + n) as u8
    } else {
        (0x61 + n - 10) as u8
    }
}

/// The uppercase hexadecimal digit of a value below 16.
pub open spec fn hex_digit_upper(n: u8) -> u8 {
    if n < 10 {
        (0x30 + n) as u8
    } else {
        (0x41 + n - 10) as u8
    }
}

/// How one byte is written in a byte string: backslash escapes for the
/// backslash, the double quote, newline, carriage return and tab; printable
/// ASCII as itself; anything else as `\x` and two lowercase hexadecimal digits.
pub open spec fn escape_byte(b: u8) -> Seq<u8> {
    if b == 0x5C {
        seq![0x5Cu8, 0x5Cu8]
    } else if b == 0x22 {
        seq![0x5Cu8, 0x22u8]
    } else if b == 0x0A {
        seq![0x5Cu8, 0x6Eu8]
    } else if b == 0x0D {
        seq![0x5Cu8, 0x72u8]
    } else if b == 0x09 {
        seq![0x5Cu8, 0x74u8]
    } else if 32 <= b < 127 {
        seq![b]
    } else {
        seq![0x5Cu8, 0x78u8, hex_digit_lower(b / 16), hex_digit_lower(b % 16)]
    }
}

/// How a byte sequence is written in a byte string, byte by byte.
pub open spec fn escape_bytes(s: Seq<u8>) -> Seq<u8>
    decreases s.len(),
{
    if s.len() == 0 {
        Seq::empty()
    } else {
        escape_bytes(s.drop_last()) + escape_byte(s.last())
    }
}

/// Each byte as two hexadecimal digits, after enough zeros to reach `width` digits.
pub open spec fn hex_bytes(s: Seq<u8>, width: int, upper: bool) -> Seq<u8> {
    Seq::new(if width > 2 * s.len() { (width - 2 * s.len()) as nat } else { 0 }, |i: int| 0x30u8)
        + hex_digits(s, upper)
}

/// Each byte as two hexadecimal digits.
pub open spec fn hex_digits(s: Seq<u8>, upper: bool) -> Seq<u8>
    decreases s.len(),
{
    if s.len() == 0 {
        Seq::empty()
    } else {
        hex_digits(s.drop_last(), upper) + if upper {
            seq![hex_digit_upper(s.last() / 16), hex_digit_upper(s.last() % 16)]
        } else {
            seq![hex_digit_lower(s.last() / 16), hex_digit_lower(s.last() % 16)]
        }
    }
}

/// Bytes below 128 are valid UTF-8.
pub proof fn lemma_ascii_valid(s: Seq<u8>)
    requires
        forall|i: int| 0 <= i < s.len() ==> s[i] < 0x80,
    ensures
        valid_utf8(s),
    decreases s.len(),
{
    if s.len() > 0 {
        let rest = s.skip(1);
        assert(pop_first_scalar(s) =~= rest);
        lemma_ascii_valid(rest);
    }
}

/// Appends the escaped form of one byte.
fn push_escaped(out: &mut Vec<u8>, by: u8)
    ensures
        final(out)@ == old(out)@ + escape_byte(by),
{
    let ghost before = out@;
    if by == 0x5C {
        out.push(0x5C);
        out.push(0x5C);
    } else if by == 0x22 {
        out.push(0x5C);
        out.push(0x22);
    } else if by == 0x0A {
        out.push(0x5C);
        out.push(0x6E);
    } else if by == 0x0D {
        out.push(0x5C);
        out.push(0x72);
    } else if by == 0x09 {
        out.push(0x5C);
        out.push(0x74);
    } else if 32 <= by && by < 127 {
        out.push(by);
    } else {
        out.push(0x5C);
        out.push(0x78);
        out.push(hex_lower(by / 16));
        out.push(hex_lower(by % 16));
    }
    assert(out@ =~= before + escape_byte(by));
}

/// The lowercase hexadecimal digit of a value below 16.
pub(crate) fn hex_lower(n: u8) -> (res: u8)
    requires
        n < 16,
    ensures
        res == hex_digit_lower(n),
{
    if n < 10 {
        0x30 + n
    } else {
        0x61 + n - 10
    }
}

/// The uppercase hexadecimal digit of a value below 16.
fn hex_upper(n: u8) -> (res: u8)
    requires
        n < 16,
    ensures
        res == hex_digit_upper(n),
{
    if n < 10 {
        0x30 + n
    } else {
        0x41 + n - 10
    }
}

/// Every byte of an escaped sequence is ASCII.
proof fn lemma_escape_ascii(s: Seq<u8>)
    ensures
        forall|i: int| 0 <= i < escape_bytes(s).len() ==> escape_bytes(s)[i] < 0x80,
    decreases s.len(),
{
    if s.len() > 0 {
        let init = s.drop_last();
        lemma_escape_ascii(init);
        let b = s.last();
        let e = escape_byte(b);
        assert(b / 16 < 16);
        assert(b % 16 < 16);
        assert(hex_digit_lower(b / 16) < 0x80);
        assert(hex_digit_lower(b % 16) < 0x80);
        assert forall|j: int| 0 <= j < e.len() implies e[j] < 0x80 by {}
        let k = escape_bytes(init).len();
        assert forall|i: int| 0 <= i < escape_bytes(s).len() implies escape_bytes(s)[i] < 0x80 by {
            if i >= k {
                assert(escape_bytes(s)[i] == e[i - k]);
            } else {
                assert(escape_bytes(s)[i] == escape_bytes(init)[i]);
            }
        }
    }
}

/// Every byte of a hexadecimal rendering is ASCII.
proof fn lemma_hex_ascii(s: Seq<u8>, upper: bool)
    ensures
        forall|i: int| 0 <= i < hex_digits(s, upper).len() ==> hex_digits(s, upper)[i] < 0x80,
    decreases s.len(),
{
    if s.len() > 0 {
        let init = s.drop_last();
        lemma_hex_ascii(init, upper);
        let b = s.last();
        assert(b / 16 < 16);
        assert(b % 16 < 16);
        let e = if upper {
            seq![hex_digit_upper(b / 16), hex_digit_upper(b % 16)]
        } else {
            seq![hex_digit_lower(b / 16), hex_digit_lower(b % 16)]
        };
        assert forall|j: int| 0 <= j < e.len() implies e[j] < 0x80 by {}
        let k = hex_digits(init, upper).len();
        assert forall|i: int| 0 <= i < hex_digits(s, upper).len() implies hex_digits(s, upper)[i]
            < 0x80 by {
            if i >= k {
                assert(hex_digits(s, upper)[i] == e[i - k]);
            } else {
                assert(hex_digits(s, upper)[i] == hex_digits(init, upper)[i]);
            }
        }
    }
}

/// Escapes a byte sequence as a byte string.
pub fn escape_to_vec(data: &[u8]) -> (res: Vec<u8>)
    ensures
        res@ == escape_bytes(data@),
{
    let mut out: Vec<u8> = Vec::new();
    let n = data.len();
    let mut i: usize = 0;
    while i < n
        invariant
            n == data@.len(),
            i <= n,
            out@ == escape_bytes(data@.take(i as int)),
        decreases n - i,
    {
        proof {
            assert(data@.take(i + 1).drop_last() =~= data@.take(i as int));
        }
        push_escaped(&mut out, data[i]);
        i += 1;
    }
    proof {
        assert(data@.take(n as int) =~= data@);
    }
    out
}

/// Renders a byte sequence as hexadecimal digits, zero-padded on the left to
/// `width` digits where a width is given.
pub fn hex_to_vec(sl: &[u8], width: Option<usize>, upper: bool) -> (res: Vec<u8>)
    ensures
        res@ == hex_bytes(
            sl@,
            match width {
                Some(w) => w as int,
                None => 0,
            },
            upper,
        ),
{
    let mut out: Vec<u8> = Vec::new();
    let n = sl.len();
    let w = match width {
        Some(w) => w,
        None => 0,
    };
    let mut pad: usize = 0;
    if n <= usize::MAX / 2 && w > 2 * n {
        pad = w - 2 * n;
    }
    let mut k: usize = 0;
    while k < pad
        invariant
            k <= pad,
            out@ == Seq::new(k as nat, |i: int| 0x30u8),
        decreases pad - k,
    {
        out.push(0x30);
        k += 1;
        assert(out@ =~= Seq::new(k as nat, |i: int| 0x30u8));
    }
    let ghost zeros = out@;
    let mut i: usize = 0;
    proof {
        assert(sl@.take(0) =~= Seq::<u8>::empty());
        assert(zeros + hex_digits(Seq::<u8>::empty(), upper) =~= zeros);
    }
    while i < n
        invariant
            n == sl@.len(),
            i <= n,
            out@ == zeros + hex_digits(sl@.take(i as int), upper),
        decreases n - i,
    {
        let b = sl[i];
        let hi = b / 16;
        let lo = b % 16;
        if upper {
            out.push(hex_upper(hi));
            out.push(hex_upper(lo));
        } else {
            out.push(hex_lower(hi));
            out.push(hex_lower(lo));
        }
        proof {
            assert(sl@.take(i + 1).drop_last() =~= sl@.take(i as int));
            assert(sl@.take(i + 1).last() == b);
            assert(out@ =~= zeros + hex_digits(sl@.take(i + 1), upper));
        }
        i += 1;
    }
    proof {
        assert(sl@.take(n as int) =~= sl@);
        let wi = match width {
            Some(w) => w as int,
            None => 0,
        };
        assert(zeros =~= Seq::new(if wi > 2 * sl@.len() { (wi - 2 * sl@.len()) as nat } else { 0 }, |i: int| 0x30u8));
    }
    out
}

/// Turns ASCII bytes into a `String`.
pub(crate) fn ascii_to_string(v: Vec<u8>) -> (res: String)
    requires
        forall|i: int| 0 <= i < v@.len() ==> v@[i] < 0x80,
    ensures
        string_bytes(&res) == v@,
{
    proof {
        lemma_ascii_valid(v@);
    }
    string_from_utf8(v)
}

/// Renders the lowercase hexadecimal digits of a byte sequence, zero-padded on
/// the left to `width` digits where a width is given.
pub fn lower_hex_slice(sl: &[u8], width: Option<usize>) -> (res: String)
    ensures
        string_bytes(&res) == hex_bytes(
            sl@,
            match width {
                Some(w) => w as int,
                None => 0,
            },
            false,
        ),
{
    let v = hex_to_vec(sl, width, false);
    proof {
        lemma_hex_ascii(sl@, false);
    }
    ascii_to_string(v)
}

/// Renders the uppercase hexadecimal digits of a byte sequence, zero-padded on
/// the left to `width` digits where a width is given.
pub fn upper_hex_slice(sl: &[u8], width: Option<usize>) -> (res: String)
    ensures
        string_bytes(&res) == hex_bytes(
            sl@,
            match width {
                Some(w) => w as int,
                None => 0,
            },
            true,
        ),
{
    let v = hex_to_vec(sl, width, true);
    proof {
        lemma_hex_ascii(sl@, true);
    }
    ascii_to_string(v)
}

/// A value that holds bytes and lends them out as a slice.
pub trait ByteSource {
    /// The bytes held.
    spec fn spec_source_bytes(&self) -> Seq<u8>;

    /// The bytes held, as a slice.
    fn source_bytes(&self) -> (res: &[u8])
        ensures
            res@ == self.spec_source_bytes(),
    ;
}

impl ByteSource for [u8] {
    open spec fn spec_source_bytes(&self) -> Seq<u8> {
        self@
    }

    fn source_bytes(&self) -> (res: &[u8]) {
        self
    }
}

impl ByteSource for Vec<u8> {
    open spec fn spec_source_bytes(&self) -> Seq<u8> {
        self@
    }

    fn source_bytes(&self) -> (res: &[u8]) {
        self.as_slice()
    }
}

impl ByteSource for str {
    open spec fn spec_source_bytes(&self) -> Seq<u8> {
        self.spec_bytes()
    }

    fn source_bytes(&self) -> (res: &[u8]) {
        self.as_bytes()
    }
}

impl ByteSource for String {
    open spec fn spec_source_bytes(&self) -> Seq<u8> {
        string_bytes(self)
    }

    fn source_bytes(&self) -> (res: &[u8]) {
        self.as_str().as_bytes()
    }
}

impl<'b> ByteSource for crate::bytedata::ByteData<'b> {
    open spec fn spec_source_bytes(&self) -> Seq<u8> {
        self@
    }

    fn source_bytes(&self) -> (res: &[u8]) {
        self.as_slice()
    }
}

impl<'b> ByteSource for crate::stringdata::StringData<'b> {
    open spec fn spec_source_bytes(&self) -> Seq<u8> {
        self@
    }

    fn source_bytes(&self) -> (res: &[u8]) {
        self.as_bytes()
    }
}

/// Helper wrapper to render a byte slice as a byte string similar to
/// `core::ascii::escape_default`.
pub struct ByteStringRender<'a>(&'a [u8]);

impl<'a> ByteStringRender<'a> {
    /// The bytes to render.
    pub closed spec fn spec_bytes(&self) -> Seq<u8> {
        self.0@
    }

    /// Get the inner byte slice.
    pub fn as_slice(&self) -> (res: &'a [u8])
        ensures
            res@ == self.spec_bytes(),
    {
        self.0
    }

    /// Create a new `ByteStringRender` from a byte slice.
    pub fn from_slice(slice: &'a [u8]) -> (res: Self)
        ensures
            res.spec_bytes() == slice@,
    {
        Self(slice)
    }

    /// Create a new `ByteStringRender` from a string slice.
    pub fn from_str(slice: &'a str) -> (res: Self)
        ensures
            res.spec_bytes() == slice.spec_bytes(),
    {
        Self(slice.as_bytes())
    }

    /// Create a new `ByteStringRender` from a reference to anything that holds
    /// bytes.
    pub fn from_ref<B: ByteSource + ?Sized>(slice: &'a B) -> (res: Self)
        ensures
            res.spec_bytes() == slice.spec_source_bytes(),
    {
        Self(slice.source_bytes())
    }

    /// The escaped bytes, without quotes.
    pub fn to_string(&self) -> (res: String)
        ensures
            string_bytes(&res) == escape_bytes(self.spec_bytes()),
    {
        let v = escape_to_vec(self.0);
        proof {
            lemma_escape_ascii(self.0@);
        }
        ascii_to_string(v)
    }

    /// The escaped bytes between `b"` and `"`.
    pub fn to_debug_string(&self) -> (res: String)
        ensures
            string_bytes(&res) == seq![0x62u8, 0x22u8] + escape_bytes(self.spec_bytes()) + seq![
                0x22u8,
            ],
    {
        let mut v: Vec<u8> = Vec::new();
        v.push(0x62);
        v.push(0x22);
        let body = escape_to_vec(self.0);
        let mut i: usize = 0;
        let n = body.len();
        while i < n
            invariant
                n == body@.len(),
                i <= n,
                v@ == seq![0x62u8, 0x22u8] + body@.take(i as int),
            decreases n - i,
        {
            v.push(body[i]);
            proof {
                assert(body@.take(i + 1) =~= body@.take(i as int).push(body@[i as int]));
            }
            i += 1;
        }
        v.push(0x22);
        proof {
            assert(body@.take(n as int) =~= body@);
            lemma_escape_ascii(self.0@);
            assert(v@ =~= seq![0x62u8, 0x22u8] + escape_bytes(self.0@) + seq![0x22u8]);
        }
        ascii_to_string(v)
    }

    /// The lowercase hexadecimal digits, zero-padded on the left to `width` digits.
    pub fn to_lower_hex(&self, width: Option<usize>) -> (res: String)
        ensures
            string_bytes(&res) == hex_bytes(
                self.spec_bytes(),
                match width {
                    Some(w) => w as int,
                    None => 0,
                },
                false,
            ),
    {
        lower_hex_slice(self.0, width)
    }

    /// The uppercase hexadecimal digits, zero-padded on the left to `width` digits.
    pub fn to_upper_hex(&self, width: Option<usize>) -> (res: String)
        ensures
            string_bytes(&res) == hex_bytes(
                self.spec_bytes(),
                match width {
                    Some(w) => w as int,
                    None => 0,
                },
                true,
            ),
    {
        upper_hex_slice(self.0, width)
    }
}

impl<'a> From<&'a [u8]> for ByteStringRender<'a> {
    fn from(value: &'a [u8]) -> (res: Self)
        ensures
            res.spec_bytes() == value@,
    {
        Self(value)
    }
}

impl<'a> vstd::std_specs::convert::FromSpecImpl<&'a [u8]> for ByteStringRender<'a> {
    open spec fn obeys_from_spec() -> bool {
        false
    }

    open spec fn from_spec(v: &'a [u8]) -> Self {
        vstd::pervasive::arbitrary()
    }
}

/// Helper wrapper to render a collection of byte slices as a single byte string.
pub struct MultiByteStringRender<'a> {
    inner: &'a [&'a [u8]],
}

impl<'a> MultiByteStringRender<'a> {
    /// The bytes to render: all slices, one after the other.
    pub closed spec fn spec_bytes(&self) -> Seq<u8> {
        crate::slices::concat_slices(self.inner@)
    }

    /// Create a new `MultiByteStringRender` over byte slices.
    pub fn new(inner: &'a [&'a [u8]]) -> (res: Self)
        ensures
            res.spec_bytes() == crate::slices::concat_slices(inner@),
    {
        Self { inner }
    }

    /// The escaped bytes of all slices, without quotes.
    pub fn to_string(&self) -> (res: String)
        ensures
            string_bytes(&res) == escape_bytes(self.spec_bytes()),
    {
        let v = self.escaped();
        proof {
            lemma_escape_ascii(self.spec_bytes());
        }
        ascii_to_string(v)
    }

    /// The escaped bytes of all slices between `b"` and `"`.
    pub fn to_debug_string(&self) -> (res: String)
        ensures
            string_bytes(&res) == seq![0x62u8, 0x22u8] + escape_bytes(self.spec_bytes()) + seq![
                0x22u8,
            ],
    {
        let body = self.escaped();
        let mut v: Vec<u8> = Vec::new();
        v.push(0x62);
        v.push(0x22);
        let mut i: usize = 0;
        let n = body.len();
        while i < n
            invariant
                n == body@.len(),
                i <= n,
                v@ == seq![0x62u8, 0x22u8] + body@.take(i as int),
            decreases n - i,
        {
            v.push(body[i]);
            proof {
                assert(body@.take(i + 1) =~= body@.take(i as int).push(body@[i as int]));
            }
            i += 1;
        }
        v.push(0x22);
        proof {
            assert(body@.take(n as int) =~= body@);
            lemma_escape_ascii(self.spec_bytes());
            assert(v@ =~= seq![0x62u8, 0x22u8] + escape_bytes(self.spec_bytes()) + seq![0x22u8]);
        }
        ascii_to_string(v)
    }

    /// The escaped bytes of all slices.
    fn escaped(&self) -> (res: Vec<u8>)
        ensures
            res@ == escape_bytes(self.spec_bytes()),
    {
        let ghost views = self.inner@.map_values(|s: &[u8]| s@);
        let mut out: Vec<u8> = Vec::new();
        let mut all: Vec<u8> = Vec::new();
        let n = self.inner.len();
        let mut i: usize = 0;
        proof {
            assert(views.take(0) =~= Seq::<Seq<u8>>::empty());
            assert(all@ =~= views.take(0).flatten());
        }
        while i < n
            invariant
                n == self.inner@.len(),
                views == self.inner@.map_values(|s: &[u8]| s@),
                i <= n,
                all@ == views.take(i as int).flatten(),
            decreases n - i,
        {
            let part = self.inner[i];
            let mut j: usize = 0;
            let ghost before = all@;
            while j < part.len()
                invariant
                    j <= part@.len(),
                    all@ == before + part@.take(j as int),
                decreases part@.len() - j,
            {
                all.push(part[j]);
                proof {
                    assert(part@.take(j + 1) =~= part@.take(j as int).push(part@[j as int]));
                }
                j += 1;
            }
            proof {
                assert(part@.take(j as int) =~= part@);
                assert(views.take(i + 1) =~= views.take(i as int).push(part@));
                views.take(i as int).lemma_flatten_push(part@);
            }
            i += 1;
        }
        proof {
            assert(views.take(n as int) =~= views);
        }
        out = escape_to_vec(all.as_slice());
        out
    }
}

} // verus!
