//! Decoding UTF-8 characters one at a time from a byte slice, with their positions.
use vstd::prelude::*;
use vstd::utf8::*;

verus! {

/// The character with the given value, where it is a Unicode scalar value.
#[verifier::external_body]
fn char_from_u32(v: u32) -> (res: Option<char>)
    ensures
        res is Some <==> (v <= 0x10FFFF && !(0xD800 <= v <= 0xDFFF)),
        res matches Some(c) ==> c as u32 == v,
{
    core::char::from_u32(v)
}

/// The length of the encoding that a leading byte announces; zero where the
/// byte cannot start a character.
pub open spec fn lead_width(b: u8) -> int {
    if is_leading_byte_width_1(b) {
        1
    } else if is_leading_byte_width_2(b) {
        2
    } else if is_leading_byte_width_3(b) {
        3
    } else if is_leading_byte_width_4(b) {
        4
    } else {
        0
    }
}

/// The first position from `i` on, below `w`, that holds no continuation byte; `w` if none does.
pub open spec fn first_non_continuation(data: Seq<u8>, i: int, w: int) -> int
    decreases w - i,
{
    if i >= w {
        w
    } else if !is_continuation_byte(data[i]) {
        i
    } else {
        first_non_continuation(data, i + 1, w)
    }
}

/// The value that the first `w` bytes of `data` encode.
pub open spec fn codepoint_of(data: Seq<u8>, w: int) -> u32 {
    if w == 2 {
        codepoint_width_2(data[0], data[1])
    } else if w == 3 {
        codepoint_width_3(data[0], data[1], data[2])
    } else {
        codepoint_width_4(data[0], data[1], data[2], data[3])
    }
}

/// The least value that an encoding of `w` bytes may stand for; smaller values
/// in `w` bytes are overlong.
pub open spec fn min_codepoint(w: int) -> u32 {
    if w == 2 {
        0x80
    } else if w == 3 {
        0x800
    } else {
        0x1_0000
    }
}

/// What decoding the first character of a non-empty byte sequence gives: its
/// value and width, or the length of the invalid sequence found instead.
/// Overlong encodings are refused at their first byte; values outside the
/// Unicode scalar range are refused with their whole width.
pub open spec fn decode_outcome(data: Seq<u8>) -> Result<(u32, int), int> {
    let w = lead_width(data[0]);
    if w == 1 {
        Ok((data[0] as u32, 1))
    } else if w == 0 || data.len() < w {
        Err(1)
    } else if first_non_continuation(data, 1, w) < w {
        Err(first_non_continuation(data, 1, w))
    } else if codepoint_of(data, w) < min_codepoint(w) {
        Err(1)
    } else if is_scalar(codepoint_of(data, w)) {
        Ok((codepoint_of(data, w), w))
    } else {
        Err(w)
    }
}

/// What decoding a byte sequence from the front gives, one step at a time: the
/// value of each character, or the length of each invalid sequence skipped.
pub open spec fn decoded_values(data: Seq<u8>) -> Seq<Result<u32, int>>
    decreases data.len(),
{
    if data.len() == 0 {
        Seq::empty()
    } else {
        let (item, step) = match decode_outcome(data) {
            Ok((v, w)) => (Ok::<u32, int>(v), w),
            Err(e) => (Err::<u32, int>(e), e),
        };
        if 1 <= step <= data.len() {
            seq![item] + decoded_values(data.skip(step))
        } else {
            seq![item]
        }
    }
}

/// The value being assembled after `i` bytes of a multi-byte character.
spec fn partial_codepoint(data: Seq<u8>, lead: u32, i: int) -> u32
    decreases i,
{
    if i <= 1 {
        lead
    } else {
        (partial_codepoint(data, lead, i - 1) << 6u32) | ((data[i - 1] & 0x3Fu8) as u32)
    }
}

proof fn lemma_assemble3(lead: u32, c1: u32, c2: u32)
    by (bit_vector)
    requires
        lead < 16,
        c1 < 64,
        c2 < 64,
    ensures
        (((lead << 6u32) | c1) << 6u32) | c2 == (lead << 12u32) | (c1 << 6u32) | c2,
{
}

proof fn lemma_assemble4(lead: u32, c1: u32, c2: u32, c3: u32)
    by (bit_vector)
    requires
        lead < 8,
        c1 < 64,
        c2 < 64,
        c3 < 64,
    ensures
        (((((lead << 6u32) | c1) << 6u32) | c2) << 6u32) | c3 == (lead << 18u32) | (c1 << 12u32)
            | (c2 << 6u32) | c3,
{
}

proof fn lemma_masks(b: u8)
    by (bit_vector)
    ensures
        b & 0x1Fu8 < 32,
        b & 0x0Fu8 < 16,
        b & 0x07u8 < 8,
        b & 0x3Fu8 < 64,
{
}

/// Decodes a character that starts with a byte of 128 or more.
fn decode_multibyte(data: &[u8], first: u8) -> (res: Result<(char, u8), u8>)
    requires
        data@.len() > 0,
        data@[0] == first,
        first >= 128,
    ensures
        match decode_outcome(data@) {
            Ok((v, w)) => res matches Ok((c, w2)) && c as u32 == v && w2 == w,
            Err(e) => res == Err::<(char, u8), u8>(e as u8),
        },
{
    proof {
        utf8_byte_ranges_bitwise(first);
        lemma_masks(first);
    }
    let (lead, width): (u8, u8) = if first & 0b1110_0000 == 0b1100_0000 {
        (first & 0b0001_1111, 2)
    } else if first & 0b1111_0000 == 0b1110_0000 {
        (first & 0b0000_1111, 3)
    } else if first & 0b1111_1000 == 0b1111_0000 {
        (first & 0b0000_0111, 4)
    } else {
        return Err(1);
    };
    let max = data.len();
    if max < 4 && (max as u8) < width {
        return Err(1);
    }
    let mut value: u32 = lead as u32;
    let mut i: usize = 1;
    while i < width as usize
        invariant
            2 <= width <= 4,
            width == lead_width(first),
            data@.len() >= width,
            data@[0] == first,
            1 <= i <= width,
            value == partial_codepoint(data@, lead as u32, i as int),
            first_non_continuation(data@, 1, width as int) == first_non_continuation(
                data@,
                i as int,
                width as int,
            ),
        decreases width - i,
    {
        let byte = data[i];
        proof {
            utf8_byte_ranges_bitwise(byte);
        }
        if byte & 0b1100_0000 != 0b1000_0000 {
            return Err(i as u8);
        }
        value = (value << 6u32) | (byte & 0b0011_1111) as u32;
        i += 1;
    }
    proof {
        let d = data@;
        lemma_masks(d[1]);
        if width >= 3 {
            lemma_masks(d[2]);
        }
        if width == 4 {
            lemma_masks(d[3]);
        }
        reveal_with_fuel(partial_codepoint, 4);
        if width == 3 {
            lemma_assemble3(lead as u32, (d[1] & 0x3Fu8) as u32, (d[2] & 0x3Fu8) as u32);
        }
        if width == 4 {
            lemma_assemble4(
                lead as u32,
                (d[1] & 0x3Fu8) as u32,
                (d[2] & 0x3Fu8) as u32,
                (d[3] & 0x3Fu8) as u32,
            );
        }
        assert(value == codepoint_of(d, width as int));
    }
    let min: u32 = if width == 2 {
        0x80
    } else if width == 3 {
        0x800
    } else {
        0x1_0000
    };
    if value < min {
        return Err(1);
    }
    match char_from_u32(value) {
        Some(c) => Ok((c, width)),
        None => Err(width),
    }
}

/// An error that can occur when parsing a UTF-8 character in a byte sequence.
#[derive(Debug, Clone, Copy, PartialEq, Eq, Structural)]
pub struct Utf8CharError {
    /// The index in the input up to which valid UTF-8 was verified.
    pub valid_up_to: usize,
    /// The length of the invalid UTF-8 sequence in bytes.
    /// If the length is `0`, the error represent empty input.
    pub error_len: u8,
}

/// An iterator over the indices of the UTF-8 characters in a byte slice.
#[derive(Debug, Clone, Copy)]
pub struct Utf8CharIndices<'a> {
    data: &'a [u8],
    offset: usize,
}

impl<'a> Utf8CharIndices<'a> {
    #[verifier::type_invariant]
    spec fn inv(self) -> bool {
        self.offset + self.data@.len() <= usize::MAX
    }

    /// The bytes not yet decoded.
    pub closed spec fn spec_data(&self) -> Seq<u8> {
        self.data@
    }

    /// The position of the next byte in the original input.
    pub closed spec fn spec_offset(&self) -> int {
        self.offset as int
    }

    /// Create a new `Utf8CharIndices` from a byte slice.
    pub fn new(data: &'a [u8]) -> (res: Self)
        ensures
            res.spec_data() == data@,
            res.spec_offset() == 0,
    {
        let _n = data.len();
        Self { data, offset: 0 }
    }

    /// Get the remaining byte sequence.
    pub fn remaining(self) -> (res: &'a [u8])
        ensures
            res@ == self.spec_data(),
    {
        self.data
    }

    /// Get the size hint of the remaining byte sequence: at least one character
    /// per four bytes, at most one per byte.
    pub fn size_hint(&self) -> (res: (usize, usize))
        ensures
            res.0 == (self.spec_data().len() + 3) / 4,
            res.1 == self.spec_data().len(),
    {
        let len = self.data.len();
        let lo = len / 4 + if len % 4 == 0 {
            0
        } else {
            1
        };
        (lo, len)
    }

    /// Get the next UTF-8 character from the remaining byte sequence, with its position.
    ///
    /// # Errors
    ///
    /// Returns an error if the next byte sequence is not a valid UTF-8 character;
    /// one byte is then skipped. An error is also returned if the input is empty,
    /// in which case the error length is `0`.
    pub fn next_const(self) -> (res: Result<(Self, usize, char), (Self, Utf8CharError)>)
        ensures
            self.spec_data().len() == 0 ==> res == Err::<(Self, usize, char), (Self, Utf8CharError)>(
                (self, Utf8CharError { valid_up_to: self.spec_offset() as usize, error_len: 0 }),
            ),
            self.spec_data().len() > 0 ==> match decode_outcome(self.spec_data()) {
                Ok((v, w)) => res matches Ok((this, pos, c)) && c as u32 == v && pos
                    == self.spec_offset() && this.spec_data() == self.spec_data().skip(w)
                    && this.spec_offset() == self.spec_offset() + w,
                Err(e) => res matches Err((this, err)) && err == Utf8CharError {
                    valid_up_to: self.spec_offset() as usize,
                    error_len: e as u8,
                } && this.spec_data() == self.spec_data().skip(1) && this.spec_offset()
                    == self.spec_offset() + 1,
            },
    {
        proof {
            use_type_invariant(&self);
        }
        if self.data.len() == 0 {
            return Err((self, Utf8CharError { valid_up_to: self.offset, error_len: 0 }));
        }
        let first = self.data[0];
        let (ch, width): (char, usize) = if first < 128 {
            (first as char, 1)
        } else {
            match decode_multibyte(self.data, first) {
                Ok((ch, width)) => (ch, width as usize),
                Err(off) => {
                    let n = self.data.len();
                    let data = &self.data[1..n];
                    let valid_up_to = self.offset;
                    let this = Utf8CharIndices { data, offset: self.offset + 1 };
                    return Err((this, Utf8CharError { valid_up_to, error_len: off }));
                },
            }
        };
        let n = self.data.len();
        let data = &self.data[width..n];
        let old_offset = self.offset;
        let this = Utf8CharIndices { data, offset: self.offset + width };
        Ok((this, old_offset, ch))
    }

    /// The next character and its position, an error for an invalid sequence
    /// (after which one byte is skipped), or `None` at the end of the input.
    pub fn next(&mut self) -> (res: Option<Result<(usize, char), Utf8CharError>>)
        ensures
            old(self).spec_data().len() == 0 <==> res is None,
            res is None ==> *final(self) == *old(self),
            old(self).spec_data().len() > 0 ==> match decode_outcome(old(self).spec_data()) {
                Ok((v, w)) => {
                    &&& res matches Some(Ok((pos, c))) && c as u32 == v
                        && pos == old(self).spec_offset()
                    &&& final(self).spec_data() == old(self).spec_data().skip(w)
                    &&& final(self).spec_offset() == old(self).spec_offset() + w
                },
                Err(e) => {
                    &&& res matches Some(Err(err)) && err == Utf8CharError {
                        valid_up_to: old(self).spec_offset() as usize,
                        error_len: e as u8,
                    }
                    &&& final(self).spec_data() == old(self).spec_data().skip(1)
                    &&& final(self).spec_offset() == old(self).spec_offset() + 1
                },
            },
    {
        proof {
            if self.data@.len() > 0 {
                lemma_decode_error_len(self.data@);
            }
        }
        let cur = *self;
        match cur.next_const() {
            Ok((this, offset, ch)) => {
                *self = this;
                Some(Ok((offset, ch)))
            },
            Err((this, err)) => {
                *self = this;
                if err.error_len == 0 {
                    None
                } else {
                    Some(Err(err))
                }
            },
        }
    }
}

/// The decoder never reports an error of length zero for non-empty input, so
/// the end of the input is the only place where iteration stops.
pub proof fn lemma_decode_error_len(data: Seq<u8>)
    requires
        data.len() > 0,
    ensures
        decode_outcome(data) matches Err(e) ==> 1 <= e <= 4,
        decode_outcome(data) matches Ok((v, w)) ==> 1 <= w <= 4 && w <= data.len(),
{
    let w = lead_width(data[0]);
    if w >= 2 && data.len() >= w {
        lemma_first_non_continuation_range(data, 1, w);
    }
}

/// The first byte from `k` on that is no continuation byte is found where the
/// bytes before it, from `k` on, are all continuation bytes.
pub proof fn lemma_first_non_continuation_at(data: Seq<u8>, k: int, i: int, w: int)
    requires
        k <= i < w,
        forall|j: int| k <= j < i ==> is_continuation_byte(#[trigger] data[j]),
        !is_continuation_byte(data[i]),
    ensures
        first_non_continuation(data, k, w) == i,
    decreases i - k,
{
    if k < i {
        lemma_first_non_continuation_at(data, k + 1, i, w);
    }
}

/// The first byte from `k` on that is no continuation byte, where it lies below
/// `w`, indeed is no continuation byte.
pub proof fn lemma_first_non_continuation_not(data: Seq<u8>, k: int, w: int)
    requires
        k <= w,
        first_non_continuation(data, k, w) < w,
    ensures
        !is_continuation_byte(data[first_non_continuation(data, k, w)]),
    decreases w - k,
{
    if k < w && is_continuation_byte(data[k]) {
        lemma_first_non_continuation_not(data, k + 1, w);
    }
}

/// The bytes from `k` up to the first that is no continuation byte are all
/// continuation bytes.
pub proof fn lemma_first_non_continuation_prefix(data: Seq<u8>, k: int, w: int)
    requires
        k <= w,
    ensures
        forall|j: int|
            k <= j < first_non_continuation(data, k, w) ==> is_continuation_byte(#[trigger] data[j]),
    decreases w - k,
{
    if k < w && is_continuation_byte(data[k]) {
        lemma_first_non_continuation_prefix(data, k + 1, w);
    }
}

pub proof fn lemma_first_non_continuation_range(data: Seq<u8>, i: int, w: int)
    requires
        1 <= i <= w,
    ensures
        i <= first_non_continuation(data, i, w) <= w,
    decreases w - i,
{
    if i < w && is_continuation_byte(data[i]) {
        lemma_first_non_continuation_range(data, i + 1, w);
    }
}


proof fn lemma_codepoint_bounds(b1: u8, b2: u8, b3: u8)
    by (bit_vector)
    ensures
        (((b1 & 0x1Fu8) as u32) << 6u32) | ((b2 & 0x3Fu8) as u32) <= 0x7FF,
        (((b1 & 0x0Fu8) as u32) << 12u32) | (((b2 & 0x3Fu8) as u32) << 6u32) | ((b3
            & 0x3Fu8) as u32) <= 0xFFFF,
{
}

/// For valid UTF-8, the decoder gives the first scalar value and its length.
pub proof fn lemma_valid_decodes(d: Seq<u8>)
    requires
        valid_utf8(d),
        d.len() > 0,
    ensures
        decode_outcome(d) == Ok::<(u32, int), int>(
            (decode_first_scalar(d), length_of_first_scalar(d)),
        ),
        1 <= length_of_first_scalar(d) <= d.len(),
{
    reveal_with_fuel(first_non_continuation, 4);
    let w = length_of_first_scalar(d);
    if w == 2 {
        lemma_codepoint_bounds(d[0], d[1], d[1]);
    } else if w == 3 {
        lemma_codepoint_bounds(d[0], d[1], d[2]);
    }
    if w == 1 {
        let b = d[0];
        assert(b & 0x7Fu8 == b) by (bit_vector)
            requires
                b <= 0x7f,
        ;
    }
}

/// The first `length_of_first_scalar` bytes of valid UTF-8 are valid UTF-8 on
/// their own, and decode to the first character.
pub proof fn lemma_first_scalar_alone(d: Seq<u8>)
    requires
        valid_utf8(d),
        d.len() > 0,
    ensures
        valid_utf8(d.take(length_of_first_scalar(d))),
        decode_utf8(d.take(length_of_first_scalar(d))) == seq![decode_first_scalar(d) as char],
        valid_utf8(d.skip(length_of_first_scalar(d))),
        decode_utf8(d) == seq![decode_first_scalar(d) as char] + decode_utf8(
            d.skip(length_of_first_scalar(d)),
        ),
{
    let w = length_of_first_scalar(d);
    let t = d.take(w);
    assert(t.len() == w);
    assert(valid_first_scalar(t)) by {
        assert(forall|k: int| 0 <= k < w ==> t[k] == d[k]);
    }
    assert(pop_first_scalar(t) =~= Seq::<u8>::empty());
    assert(valid_utf8(Seq::<u8>::empty()));
    assert(valid_utf8(t));
    assert(decode_utf8(t) =~= seq![decode_first_scalar(t) as char] + decode_utf8(
        Seq::<u8>::empty(),
    ));
    assert(decode_utf8(Seq::<u8>::empty()) =~= Seq::<char>::empty());
    assert(decode_first_scalar(t) == decode_first_scalar(d));
    assert(d.skip(w) =~= pop_first_scalar(d));
}

/// Joining valid UTF-8 gives valid UTF-8 that decodes to the joined characters.
pub proof fn lemma_decode_concat(a: Seq<u8>, b: Seq<u8>)
    requires
        valid_utf8(a),
        valid_utf8(b),
    ensures
        valid_utf8(a + b),
        decode_utf8(a + b) == decode_utf8(a) + decode_utf8(b),
    decreases a.len(),
{
    valid_utf8_concat(a, b);
    if a.len() == 0 {
        assert(a + b =~= b);
        assert(decode_utf8(a) =~= Seq::<char>::empty());
        assert(decode_utf8(a) + decode_utf8(b) =~= decode_utf8(b));
    } else {
        let w = length_of_first_scalar(a);
        lemma_first_scalar_alone(a);
        let ab = a + b;
        assert(forall|k: int| 0 <= k < a.len() ==> ab[k] == a[k]);
        assert(valid_first_scalar(ab));
        assert(length_of_first_scalar(ab) == w);
        assert(decode_first_scalar(ab) == decode_first_scalar(a));
        let rest = a.skip(w);
        assert(pop_first_scalar(ab) =~= rest + b);
        lemma_decode_concat(rest, b);
        assert(decode_utf8(ab) == seq![decode_first_scalar(ab) as char] + decode_utf8(
            pop_first_scalar(ab),
        ));
        assert(decode_utf8(ab) =~= decode_utf8(a) + decode_utf8(b));
    }
}

/// Decodes the first character of valid UTF-8, giving it with its length in bytes.
pub fn next_char(data: &[u8]) -> (res: (char, usize))
    requires
        valid_utf8(data@),
        data@.len() > 0,
    ensures
        res.0 as u32 == decode_first_scalar(data@),
        res.0 == decode_first_scalar(data@) as char,
        res.1 == length_of_first_scalar(data@),
        1 <= res.1 <= data@.len(),
{
    proof {
        lemma_valid_decodes(data@);
    }
    let first = data[0];
    if first < 128 {
        let c = first as char;
        proof {
            char_u32_cast(c, c as u32);
        }
        (c, 1)
    } else {
        match decode_multibyte(data, first) {
            Ok((ch, width)) => {
                proof {
                    char_u32_cast(ch, ch as u32);
                }
                (ch, width as usize)
            },
            Err(_) => {
                proof {
                    assert(false);
                }
                (first as char, 1)
            },
        }
    }
}

} // verus!
