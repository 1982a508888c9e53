//! Building values of the library from unstructured fuzzer input, with the
//! `arbitrary` crate's `Unstructured`.
use vstd::prelude::*;
use vstd::string::StringSliceAdditionalSpecFns;
use vstd::utf8::*;

use crate::bytedata::ByteData;
use crate::queue::ByteQueue;
use crate::shared_bytes::SharedBytes;
use crate::shared_bytes_builder::SharedBytesBuilder;
use crate::shared_str_builder::{char_encode_utf8, SharedStrBuilder};
use crate::stringdata::StringData;

verus! {

#[verifier::external_type_specification]
#[verifier::external_body]
pub struct ExUnstructured<'a>(arbitrary::Unstructured<'a>);

#[verifier::external_type_specification]
#[verifier::external_body]
pub struct ExArbitraryError(arbitrary::Error);

/// The bytes that an `Unstructured` has left to hand out.
pub uninterp spec fn unstructured_data(u: arbitrary::Unstructured) -> Seq<u8>;

/// The smaller of two integers.
pub open spec fn min_int(a: int, b: int) -> int {
    if a < b {
        a
    } else {
        b
    }
}

/// The number of bytes that picking among `len` choices takes from data of
/// `avail` bytes: one, where there is a choice to make and a byte to read.
pub open spec fn choose_taken(len: int, avail: int) -> int {
    if len > 1 {
        min_int(1, avail)
    } else {
        0
    }
}

/// The number of bytes left (`Unstructured::len`).
#[verifier::external_body]
fn data_len(u: &arbitrary::Unstructured) -> (res: usize)
    ensures
        res == unstructured_data(*u).len(),
{
    u.len()
}

/// The index that `Unstructured::choose_index` picks among `len` choices, for
/// up to 256 of them: the first byte modulo `len`, or zero where there is one
/// choice or no byte.
pub open spec fn choose_value(len: int, d: Seq<u8>) -> int {
    if len > 1 && d.len() > 0 {
        (d[0] as int) % len
    } else {
        0
    }
}

/// The number of bytes that fuzzer input has left.
pub fn unstructured_len(u: &arbitrary::Unstructured) -> (res: usize)
    ensures
        res == unstructured_data(*u).len(),
{
    data_len(u)
}

/// Picks an index below `len` (`Unstructured::choose_index`); for up to 256
/// choices it reads the first byte, where there is one, and takes it.
#[verifier::external_body]
fn choose_index<'a>(u: &mut arbitrary::Unstructured<'a>, len: usize) -> (res: Result<usize, arbitrary::Error>)
    requires
        0 < len <= 256,
    ensures
        res is Ok,
        res matches Ok(i) ==> i < len && i == choose_value(len as int, unstructured_data(*old(u))),
        unstructured_data(*final(u)) == unstructured_data(*old(u)).skip(
            choose_taken(len as int, unstructured_data(*old(u)).len() as int),
        ),
{
    u.choose_index(len)
}

/// The number of base-256 digits of `x`: none for zero.
pub open spec fn byte_count(x: nat) -> nat
    decreases x,
{
    if x == 0 {
        0
    } else {
        1 + byte_count(x / 256)
    }
}

/// The value of the bytes read as a big-endian number.
pub open spec fn be_value(b: Seq<u8>) -> nat
    decreases b.len(),
{
    if b.len() == 0 {
        0
    } else {
        be_value(b.drop_last()) * 256 + b.last() as nat
    }
}

/// The length that `Unstructured::arbitrary_len::<u8>` reads from data of two or
/// more bytes: the `length_bytes` bytes at the end are set aside, and as many
/// of them as the largest length (what is left) needs are read as a big-endian
/// number, taken modulo one more than that largest length.
pub open spec fn arbitrary_len_value(d: Seq<u8>) -> int {
    let n = d.len() as int;
    let k = length_bytes(n);
    let max = n - k;
    let tail = d.subrange(n - k, n);
    (be_value(tail.take(byte_count(max as nat) as int)) % ((max + 1) as nat)) as int
}

/// How many bytes at the end of `n` bytes of data a length is read from: none
/// where there are none, one up to 256 bytes, two up to 65537, four up to
/// 2^32 + 3, else eight.
pub open spec fn length_bytes(n: int) -> int {
    if n == 0 {
        0
    } else if n <= 256 {
        1
    } else if n <= 65537 {
        2
    } else if n <= 0x1_0000_0003 {
        4
    } else {
        8
    }
}

/// The data left after a length was read from its end.
pub open spec fn after_len(d: Seq<u8>) -> Seq<u8> {
    d.take(d.len() - length_bytes(d.len() as int))
}

/// The length read from the data: zero for fewer than two bytes.
pub open spec fn len_read(d: Seq<u8>) -> int {
    if d.len() <= 1 {
        0
    } else {
        arbitrary_len_value(d) as int
    }
}

/// A number of bytes for a collection (`Unstructured::arbitrary_len::<u8>`).
/// It reads it from the bytes at the end of the data that `length_bytes` counts,
/// which it takes; the number is zero for fewer than two bytes, otherwise
/// `arbitrary_len_value` (the bytes read, modulo one more than what is left),
/// so no more than what is left.
#[verifier::external_body]
fn arbitrary_byte_len(u: &mut arbitrary::Unstructured) -> (res: Result<usize, arbitrary::Error>)
    ensures
        res is Ok,
        res matches Ok(n) ==> n <= unstructured_data(*final(u)).len() && n as int == (if unstructured_data(
            *old(u),
        ).len() <= 1 {
            0
        } else {
            arbitrary_len_value(unstructured_data(*old(u))) as int
        }),
        unstructured_data(*final(u)) == unstructured_data(*old(u)).take(
            unstructured_data(*old(u)).len() - length_bytes(unstructured_data(*old(u)).len() as int),
        ),
{
    u.arbitrary_len::<u8>()
}

/// The first `size` bytes, which it takes, where there are that many
/// (`Unstructured::bytes`).
#[verifier::external_body]
fn take_bytes<'a>(u: &mut arbitrary::Unstructured<'a>, size: usize) -> (res: Result<&'a [u8], arbitrary::Error>)
    ensures
        res is Ok <==> size <= unstructured_data(*old(u)).len(),
        res matches Ok(b) ==> b@ == unstructured_data(*old(u)).take(size as int)
            && unstructured_data(*final(u)) == unstructured_data(*old(u)).skip(size as int),
        res is Err ==> unstructured_data(*final(u)) == unstructured_data(*old(u)),
{
    u.bytes(size)
}

/// All the bytes left (`Unstructured::take_rest`).
#[verifier::external_body]
fn take_rest<'a>(u: arbitrary::Unstructured<'a>) -> (res: &'a [u8])
    ensures
        res@ == unstructured_data(u),
{
    u.take_rest()
}

/// `n` bytes from `Unstructured::fill_buffer`: the first bytes of the data, as
/// many as there are up to `n`, which it takes, then zeros.
#[verifier::external_body]
fn fill_bytes(u: &mut arbitrary::Unstructured, n: usize) -> (res: Vec<u8>)
    ensures
        res@.len() == n,
        res@.take(min_int(n as int, unstructured_data(*old(u)).len() as int))
            == unstructured_data(*old(u)).take(
            min_int(n as int, unstructured_data(*old(u)).len() as int),
        ),
        forall|i: int|
            min_int(n as int, unstructured_data(*old(u)).len() as int) <= i < n ==> #[trigger] res@[i]
                == 0,
        unstructured_data(*final(u)) == unstructured_data(*old(u)).skip(
            min_int(n as int, unstructured_data(*old(u)).len() as int),
        ),
{
    let mut v: Vec<u8> = vec![0u8; n];
    let _ = u.fill_buffer(&mut v);
    v
}

/// A `bool` (`<bool as Arbitrary>::arbitrary`): the lowest bit of the first
/// byte, which it takes; `false` where there is none.
#[verifier::external_body]
fn arbitrary_bool(u: &mut arbitrary::Unstructured) -> (res: Result<bool, arbitrary::Error>)
    ensures
        res is Ok,
        res matches Ok(b) ==> b == (unstructured_data(*old(u)).len() > 0 && unstructured_data(
            *old(u),
        )[0] % 2 == 1),
        unstructured_data(*final(u)) == unstructured_data(*old(u)).skip(
            min_int(1, unstructured_data(*old(u)).len() as int),
        ),
{
    u.arbitrary::<bool>()
}

/// The byte at `i`, or zero past the end.
pub open spec fn byte_or_zero(d: Seq<u8>, i: int) -> int {
    if i < d.len() {
        d[i] as int
    } else {
        0
    }
}

/// The character value that `<char as Arbitrary>::arbitrary` makes of the data:
/// the first four bytes as a little-endian number (zeros past the end), below
/// 0x110000, moved below the surrogates where it falls among them.
pub open spec fn arbitrary_char_value(d: Seq<u8>) -> int {
    let word = byte_or_zero(d, 0) + 0x100 * byte_or_zero(d, 1) + 0x1_0000 * byte_or_zero(d, 2)
        + 0x100_0000 * byte_or_zero(d, 3);
    let c = word % 0x11_0000;
    if 0xD800 <= c <= 0xDFFF {
        c - 0xD800
    } else {
        c
    }
}

/// A character (`<char as Arbitrary>::arbitrary`), made from the first four
/// bytes, which it takes.
#[verifier::external_body]
fn arbitrary_char(u: &mut arbitrary::Unstructured) -> (res: Result<char, arbitrary::Error>)
    ensures
        res is Ok,
        res matches Ok(c) ==> c as int == arbitrary_char_value(unstructured_data(*old(u))),
        unstructured_data(*final(u)) == unstructured_data(*old(u)).skip(
            min_int(4, unstructured_data(*old(u)).len() as int),
        ),
{
    u.arbitrary::<char>()
}

/// `k` is the length of the longest prefix of `x` that is valid UTF-8.
pub open spec fn longest_valid_prefix(x: Seq<u8>, k: int) -> bool {
    &&& 0 <= k <= x.len()
    &&& valid_utf8(x.take(k))
    &&& forall|j: int| k < j <= x.len() ==> !valid_utf8(#[trigger] x.take(j))
}

/// A string (`<&str as Arbitrary>::arbitrary`): after reading a length from the
/// end of the data as `arbitrary_byte_len` does, the longest valid UTF-8 prefix
/// of that many bytes from the front (what `str::from_utf8` finds valid up
/// to), which it takes.
#[verifier::external_body]
fn arbitrary_str<'a>(u: &mut arbitrary::Unstructured<'a>) -> (res: Result<&'a str, arbitrary::Error>)
    ensures
        res is Ok,
        res matches Ok(s) ==> {
            let d = unstructured_data(*old(u));
            let a = d.take(d.len() - length_bytes(d.len() as int));
            let n = if d.len() <= 1 {
                0
            } else {
                arbitrary_len_value(d) as int
            };
            &&& n <= a.len()
            &&& longest_valid_prefix(a.take(n), s.spec_bytes().len() as int)
            &&& s.spec_bytes() == a.take(s.spec_bytes().len() as int)
            &&& unstructured_data(*final(u)) == a.skip(s.spec_bytes().len() as int)
        },
{
    u.arbitrary::<&'a str>()
}

/// A string from all the bytes left (`<&str as Arbitrary>::arbitrary_take_rest`):
/// their longest valid UTF-8 prefix.
#[verifier::external_body]
fn arbitrary_str_take_rest<'a>(u: arbitrary::Unstructured<'a>) -> (res: Result<&'a str, arbitrary::Error>)
    ensures
        res is Ok,
        res matches Ok(s) ==> {
            &&& longest_valid_prefix(unstructured_data(u), s.spec_bytes().len() as int)
            &&& s.spec_bytes() == unstructured_data(u).take(s.spec_bytes().len() as int)
        },
{
    <&'a str as arbitrary::Arbitrary<'a>>::arbitrary_take_rest(u)
}

/// One character takes one to four bytes.
pub proof fn lemma_char_width(c: char)
    ensures
        1 <= encode_utf8(seq![c]).len() <= 4,
        valid_utf8(encode_utf8(seq![c])),
{
    reveal_with_fuel(encode_utf8, 2);
    assert(seq![c].drop_first() =~= Seq::<char>::empty());
    encode_utf8_valid_utf8(seq![c]);
}

/// Whether the next bit of the data is set (`<bool as Arbitrary>::arbitrary`).
pub open spec fn bool_of(d: Seq<u8>) -> bool {
    d.len() > 0 && d[0] % 2 == 1
}

/// The data left after a `bool` was read.
pub open spec fn after_bool(d: Seq<u8>) -> Seq<u8> {
    d.skip(min_int(1, d.len() as int))
}

/// The UTF-8 bytes of the character that `<char as Arbitrary>::arbitrary`
/// makes of the data.
pub open spec fn char_bytes_of(d: Seq<u8>) -> Seq<u8> {
    encode_utf8(seq![arbitrary_char_value(d) as char])
}

/// The data left after a character was read.
pub open spec fn after_char(d: Seq<u8>) -> Seq<u8> {
    d.skip(min_int(4, d.len() as int))
}

/// The bytes of a chunk of characters after `buf`, and the data left: while
/// the next bit is set, a character is read and added where the chunk stays
/// below 14 bytes, or reaches 14 exactly, which ends it; one that would go
/// past 14 ends it without being added.
pub open spec fn chunk_chars(buf: Seq<u8>, d: Seq<u8>) -> (Seq<u8>, Seq<u8>)
    decreases d.len(),
{
    if !bool_of(d) {
        (buf, after_bool(d))
    } else {
        let d1 = after_bool(d);
        let e = char_bytes_of(d1);
        let d2 = after_char(d1);
        if buf.len() + e.len() < 14 {
            chunk_chars(buf + e, d2)
        } else if buf.len() + e.len() == 14 {
            (buf + e, d2)
        } else {
            (buf, d2)
        }
    }
}

/// The bytes of characters after `buf`, and the data left: while the next bit
/// is set, a character is read and added.
pub open spec fn shared_chars(buf: Seq<u8>, d: Seq<u8>) -> (Seq<u8>, Seq<u8>)
    decreases d.len(),
{
    if !bool_of(d) {
        (buf, after_bool(d))
    } else {
        let d1 = after_bool(d);
        shared_chars(buf + char_bytes_of(d1), after_char(d1))
    }
}

/// The bytes of a chunk of characters after `buf`, read from all the data
/// (past its end characters are read as zero): characters are added while the
/// chunk stays below 14 bytes, or reaches 14 exactly, which ends it; one that
/// would go past 14 ends it without being added.
pub open spec fn chunk_rest(buf: Seq<u8>, d: Seq<u8>) -> Seq<u8>
    decreases 14 - buf.len(),
{
    let e = char_bytes_of(d);
    proof {
        lemma_char_width(arbitrary_char_value(d) as char);
    }
    if buf.len() + e.len() < 14 {
        chunk_rest(buf + e, after_char(d))
    } else if buf.len() + e.len() == 14 {
        buf + e
    } else {
        buf
    }
}

/// The bytes of the characters read from all the data, after `buf`.
pub open spec fn shared_rest(buf: Seq<u8>, d: Seq<u8>) -> Seq<u8>
    decreases d.len(),
{
    if d.len() == 0 {
        buf
    } else {
        shared_rest(buf + char_bytes_of(d), after_char(d))
    }
}

/// Characters read as `shared_chars` does only add bytes.
proof fn lemma_shared_chars_grow(buf: Seq<u8>, d: Seq<u8>)
    ensures
        shared_chars(buf, d).0.len() >= buf.len(),
    decreases d.len(),
{
    if bool_of(d) {
        let d1 = after_bool(d);
        lemma_shared_chars_grow(buf + char_bytes_of(d1), after_char(d1));
    }
}

/// Characters read as `shared_rest` does only add bytes.
proof fn lemma_shared_rest_grow(buf: Seq<u8>, d: Seq<u8>)
    ensures
        shared_rest(buf, d).len() >= buf.len(),
    decreases d.len(),
{
    if d.len() > 0 {
        lemma_shared_rest_grow(buf + char_bytes_of(d), after_char(d));
    }
}

/// Characters read as `shared_chars` does take at most four bytes each, and
/// each takes at least one byte of data.
proof fn lemma_shared_chars_bound(buf: Seq<u8>, d: Seq<u8>)
    ensures
        shared_chars(buf, d).0.len() <= buf.len() + 4 * d.len(),
    decreases d.len(),
{
    if bool_of(d) {
        let d1 = after_bool(d);
        lemma_char_width(arbitrary_char_value(d1) as char);
        lemma_shared_chars_bound(buf + char_bytes_of(d1), after_char(d1));
    }
}

/// Characters read as `shared_rest` does take at most four bytes each, and
/// each takes at least one byte of data.
proof fn lemma_shared_rest_bound(buf: Seq<u8>, d: Seq<u8>)
    ensures
        shared_rest(buf, d).len() <= buf.len() + 4 * d.len(),
    decreases d.len(),
{
    if d.len() > 0 {
        lemma_char_width(arbitrary_char_value(d) as char);
        lemma_shared_rest_bound(buf + char_bytes_of(d), after_char(d));
    }
}

/// Fuzzer input of which four bytes per byte, and a buffer header, fit in a
/// shared buffer meets what making text from it requires, whatever it picks.
pub proof fn lemma_small_input_fits(d: Seq<u8>)
    requires
        4 * d.len() + 12 <= 0xFFFF_FFFF,
    ensures
        text_pick_fits(d),
        text_rest_pick_fits(d),
{
    if d.len() > 0 {
        lemma_shared_chars_bound(Seq::<u8>::empty(), d.skip(1));
        lemma_shared_rest_bound(Seq::<u8>::empty(), d.skip(1));
    }
}

/// Where the first byte picks a shared buffer of characters, they fit in one.
pub open spec fn text_pick_fits(d: Seq<u8>) -> bool {
    d.len() > 0 && choose_value(3, d) == 2 ==> shared_chars(Seq::<u8>::empty(), d.skip(1)).0.len()
        + 12 <= 0xFFFF_FFFF
}

/// Where the first byte picks a shared buffer of characters made from all the
/// rest, they fit in one.
pub open spec fn text_rest_pick_fits(d: Seq<u8>) -> bool {
    d.len() > 0 && choose_value(3, d) == 2 ==> shared_rest(Seq::<u8>::empty(), d.skip(1)).len()
        + 12 <= 0xFFFF_FFFF
}

/// The bytes are a run of `whole`, starting at most `at` bytes in.
pub open spec fn run_of(part: Seq<u8>, whole: Seq<u8>, at: int) -> bool {
    exists|i: int|
        0 <= i <= at && i + part.len() <= whole.len() && part == #[trigger] whole.subrange(
            i,
            i + part.len(),
        )
}

/// `got` is all of `full`, or a prefix of it that stops short only where a
/// shared buffer holding it is within 16 bytes of its cap of `0xFFFF_FFFF`
/// bytes.
pub open spec fn whole_or_capped(full: Seq<u8>, got: Seq<u8>) -> bool {
    &&& got.len() <= full.len()
    &&& got == full.take(got.len() as int)
    &&& got.len() == full.len() || got.len() + 16 > 0xFFFF_FFFF
}

/// The bytes that a builder made from fuzzer input holds, and the data that
/// is left: a length read from the end, then that many bytes from the front.
pub open spec fn builder_parts(d: Seq<u8>) -> (Seq<u8>, Seq<u8>) {
    if d.len() == 0 {
        (d, d)
    } else {
        let a = after_len(d);
        let n = min_int(len_read(d), a.len() as int);
        (a.take(n), a.skip(n))
    }
}

impl SharedBytesBuilder {
    /// Fills a builder with up to `maxlen` bytes from the front of the data, in
    /// steps that fit the buffer after reserving four more bytes.
    fn fill_from(u: &mut arbitrary::Unstructured, maxlen: usize) -> (res: SharedBytesBuilder)
        requires
            maxlen <= unstructured_data(*old(u)).len(),
        ensures
            res@ == unstructured_data(*old(u)).take(res@.len() as int),
            unstructured_data(*final(u)) == unstructured_data(*old(u)).skip(res@.len() as int),
            res@.len() <= maxlen,
            res@.len() == maxlen || res@.len() + 16 > 0xFFFF_FFFF,
            unstructured_data(*old(u)).len() + 16 <= 0xFFFF_FFFF ==> res@.len() == maxlen,
    {
        let ghost start = unstructured_data(*u);
        let ghost orig_max = maxlen;
        let mut buffer = Self::new();
        let mut maxlen = maxlen;
        proof {
            crate::shared_bytes_builder::lemma_start_offset_bounds(buffer.spec_align());
            assert(start.take(0) =~= Seq::<u8>::empty());
            assert(start.skip(0) =~= start);
        }
        while data_len(u) != 0
            invariant
                buffer@ == start.take(buffer@.len() as int),
                unstructured_data(*u) == start.skip(buffer@.len() as int),
                buffer@.len() + maxlen == orig_max,
                orig_max <= start.len(),
                buffer.spec_align() == crate::shared_bytes::META_ALIGN,
            ensures
                buffer@ == start.take(buffer@.len() as int),
                unstructured_data(*u) == start.skip(buffer@.len() as int),
                buffer@.len() + maxlen == orig_max,
                maxlen > 0 ==> buffer@.len() + 16 > 0xFFFF_FFFF,
            decreases maxlen,
        {
            buffer.lemma_well_formed();
            let ghost end0 = buffer.spec_end();
            buffer.reserve(4);
            buffer.lemma_well_formed();
            let spare = buffer.capacity() - buffer.len();
            proof {
                crate::shared_bytes_builder::lemma_small_pow2s();
                if end0 + 4 <= 0xFFFF_FFFF {
                    assert(spare >= 4);
                }
            }
            let len = if maxlen < spare {
                maxlen
            } else {
                spare
            };
            if len == 0 {
                break ;
            }
            maxlen -= len;
            let ghost before = buffer@;
            let ghost rest = unstructured_data(*u);
            let chunk = fill_bytes(u, len);
            proof {
                assert(chunk@ =~= rest.take(len as int));
                crate::shared_bytes_builder::lemma_start_offset_bounds(buffer.spec_align());
            }
            buffer.extend_from_slice(chunk.as_slice());
            proof {
                assert(buffer@ =~= start.take(buffer@.len() as int));
                assert(unstructured_data(*u) =~= start.skip(buffer@.len() as int));
            }
        }
        buffer
    }

    /// A builder filled from fuzzer input: a length read from the end of the
    /// data, then that many bytes from the front.
    pub fn arbitrary(u: &mut arbitrary::Unstructured) -> (res: Result<Self, arbitrary::Error>)
        ensures
            res matches Ok(b) && b@ == unstructured_data(*old(u)).take(b@.len() as int) && b@.len()
                + unstructured_data(*final(u)).len() <= unstructured_data(*old(u)).len(),
            unstructured_data(*old(u)).len() == 0 ==> (res matches Ok(b) && b@.len() == 0),
            unstructured_data(*old(u)).len() > 0 ==> (res matches Ok(b) && whole_or_capped(
                builder_parts(unstructured_data(*old(u))).0,
                b@,
            ) && unstructured_data(*final(u)) == after_len(unstructured_data(*old(u))).skip(
                b@.len() as int,
            )),
            unstructured_data(*old(u)).len() + 16 <= 0xFFFF_FFFF ==> (res matches Ok(b) && b@
                == builder_parts(unstructured_data(*old(u))).0 && unstructured_data(*final(u))
                == builder_parts(unstructured_data(*old(u))).1),
    {
        if data_len(u) == 0 {
            let b = Self::new();
            proof {
                assert(b@ =~= unstructured_data(*u));
            }
            return Ok(b);
        }
        let ghost start = unstructured_data(*u);
        let maxlen = match arbitrary_byte_len(u) {
            Ok(n) => n,
            Err(e) => return Err(e),
        };
        let ghost mid = unstructured_data(*u);
        let b = Self::fill_from(u, maxlen);
        proof {
            assert(mid.take(b@.len() as int) =~= start.take(b@.len() as int));
            assert(mid == after_len(start));
            assert(mid.take(maxlen as int).take(b@.len() as int) =~= b@);
        }
        Ok(b)
    }

    /// A builder filled with all the fuzzer input that is left.
    pub fn arbitrary_take_rest(u: arbitrary::Unstructured) -> (res: Result<Self, arbitrary::Error>)
        ensures
            res matches Ok(b) && whole_or_capped(unstructured_data(u), b@),
            unstructured_data(u).len() == 0 ==> (res matches Ok(b) && b@.len() == 0),
            unstructured_data(u).len() + 16 <= 0xFFFF_FFFF ==> (res matches Ok(b) && b@
                == unstructured_data(u)),
    {
        let ghost start = unstructured_data(u);
        let mut u = u;
        let n = data_len(&u);
        if n == 0 {
            let b = Self::new();
            proof {
                assert(b@ =~= start);
                assert(start.take(0) =~= b@);
            }
            return Ok(b);
        }
        let b = Self::fill_from(&mut u, n);
        proof {
            assert(start.take(n as int) =~= start);
        }
        Ok(b)
    }
}

impl SharedBytes {
    /// Shared bytes built from fuzzer input as `SharedBytesBuilder::arbitrary` does.
    pub fn arbitrary(u: &mut arbitrary::Unstructured) -> (res: Result<Self, arbitrary::Error>)
        ensures
            res matches Ok(b) && b@ == unstructured_data(*old(u)).take(b@.len() as int) && b@.len()
                + unstructured_data(*final(u)).len() <= unstructured_data(*old(u)).len(),
            unstructured_data(*old(u)).len() == 0 ==> (res matches Ok(b) && b@.len() == 0),
            unstructured_data(*old(u)).len() > 0 ==> (res matches Ok(b) && whole_or_capped(
                builder_parts(unstructured_data(*old(u))).0,
                b@,
            ) && unstructured_data(*final(u)) == after_len(unstructured_data(*old(u))).skip(
                b@.len() as int,
            )),
            unstructured_data(*old(u)).len() + 16 <= 0xFFFF_FFFF ==> (res matches Ok(b) && b@
                == builder_parts(unstructured_data(*old(u))).0 && unstructured_data(*final(u))
                == builder_parts(unstructured_data(*old(u))).1),
    {
        match SharedBytesBuilder::arbitrary(u) {
            Ok(b) => Ok(b.build()),
            Err(e) => Err(e),
        }
    }
}

/// The bytes that `ByteData::arbitrary_take_rest` makes of all the fuzzer
/// input: after the byte that picks how they are held, all the rest
/// (borrowed), at most 14 bytes of it (an inline chunk), or what a shared
/// buffer made as `SharedBytes::arbitrary` does holds.
pub open spec fn data_rest_value(d: Seq<u8>) -> Seq<u8> {
    if d.len() == 0 {
        d
    } else {
        let r = d.skip(1);
        let c = choose_value(3, d);
        if c == 0 {
            r
        } else if c == 1 {
            r.take(min_int(14, r.len() as int))
        } else {
            builder_parts(r).0
        }
    }
}

/// The bytes that `ByteData::arbitrary` makes of fuzzer input, and the data
/// that is left: after the byte that picks how they are held, a length read
/// from the end, then that many bytes from the front, at most 14 where the
/// pick is an inline chunk.
pub open spec fn data_parts(d: Seq<u8>) -> (Seq<u8>, Seq<u8>) {
    if d.len() == 0 {
        (d, d)
    } else {
        let r = d.skip(1);
        let a = after_len(r);
        let n = min_int(len_read(r), a.len() as int);
        let k = if choose_value(3, d) == 1 {
            min_int(n, 14)
        } else {
            n
        };
        (a.take(k), a.skip(k))
    }
}

impl<'a> ByteData<'a> {
    /// Bytes from fuzzer input, held in one of three ways that the first byte
    /// picks: borrowed, in a chunk of at most 14 bytes, or shared.
    pub fn arbitrary(u: &mut arbitrary::Unstructured<'a>) -> (res: Result<Self, arbitrary::Error>)
        ensures
            res matches Ok(d) && run_of(d@, unstructured_data(*old(u)), 1) && d@.len()
                + unstructured_data(*final(u)).len() <= unstructured_data(*old(u)).len(),
            unstructured_data(*old(u)).len() > 0 && choose_value(3, unstructured_data(*old(u))) == 2
                ==> (res matches Ok(d) && whole_or_capped(data_parts(unstructured_data(*old(u))).0, d@)
                && unstructured_data(*final(u)) == after_len(unstructured_data(*old(u)).skip(1)).skip(
                d@.len() as int,
            )),
            unstructured_data(*old(u)).len() == 0 ==> (res matches Ok(d) && d@.len() == 0),
            unstructured_data(*old(u)).len() > 0 ==> unstructured_data(*final(u)).len()
                < unstructured_data(*old(u)).len(),
            (choose_value(3, unstructured_data(*old(u))) != 2 || unstructured_data(*old(u)).len()
                + 16 <= 0xFFFF_FFFF) ==> (res matches Ok(d) && d@
                == data_parts(unstructured_data(*old(u))).0 && unstructured_data(*final(u))
                == data_parts(unstructured_data(*old(u))).1),
    {
        let ghost start = unstructured_data(*u);
        if data_len(u) == 0 {
            let d = ByteData::empty();
            proof {
                assert(d@ =~= start.subrange(0, 0 + d@.len() as int));
            }
            return Ok(d);
        }
        let choice = match choose_index(u, 3) {
            Ok(i) => i,
            Err(e) => return Err(e),
        };
        let ghost after = unstructured_data(*u);
        proof {
            assert(after =~= start.skip(1));
            if after.len() == 0 {
                assert(after_len(after) =~= after);
                assert(after.take(0) =~= after);
                assert(after.skip(0) =~= after);
            }
        }
        if choice == 0 {
            let n = match arbitrary_byte_len(u) {
                Ok(n) => n,
                Err(e) => return Err(e),
            };
            let ghost mid = unstructured_data(*u);
            match take_bytes(u, n) {
                Ok(b) => {
                    let d = ByteData::from_borrowed(b);
                    proof {
                        assert(d@ =~= start.subrange(1, 1 + d@.len() as int));
                    }
                    Ok(d)
                },
                Err(e) => Err(e),
            }
        } else if choice == 1 {
            let n = match arbitrary_byte_len(u) {
                Ok(n) => n,
                Err(e) => return Err(e),
            };
            let n = if n < 14 {
                n
            } else {
                14
            };
            match take_bytes(u, n) {
                Ok(b) => {
                    let d = ByteData::from_chunk_slice(b);
                    proof {
                        assert(d@ =~= start.subrange(1, 1 + d@.len() as int));
                    }
                    Ok(d)
                },
                Err(e) => Err(e),
            }
        } else {
            match SharedBytes::arbitrary(u) {
                Ok(b) => {
                    let d = ByteData::from_shared(b);
                    proof {
                        assert(d@ =~= start.subrange(1, 1 + d@.len() as int));
                    }
                    Ok(d)
                },
                Err(e) => Err(e),
            }
        }
    }

    /// Bytes from all the fuzzer input that is left, held in one of three ways
    /// that the first byte picks: borrowed, in a chunk of at most 14 bytes, or
    /// shared.
    pub fn arbitrary_take_rest(u: arbitrary::Unstructured<'a>) -> (res: Result<
        Self,
        arbitrary::Error,
    >)
        ensures
            res matches Ok(d) && run_of(d@, unstructured_data(u), 1),
            unstructured_data(u).len() > 0 && choose_value(3, unstructured_data(u)) == 2 ==> (res matches Ok(
                d,
            ) && whole_or_capped(data_rest_value(unstructured_data(u)), d@)),
            unstructured_data(u).len() == 0 ==> (res matches Ok(d) && d@.len() == 0),
            (choose_value(3, unstructured_data(u)) != 2 || unstructured_data(u).len() + 16
                <= 0xFFFF_FFFF) ==> (res matches Ok(d) && d@ == data_rest_value(unstructured_data(u))),
    {
        let ghost start = unstructured_data(u);
        let mut u = u;
        if data_len(&u) == 0 {
            let d = ByteData::empty();
            proof {
                assert(d@ =~= start.subrange(0, 0 + d@.len() as int));
            }
            return Ok(d);
        }
        let choice = match choose_index(&mut u, 3) {
            Ok(i) => i,
            Err(e) => return Err(e),
        };
        proof {
            assert(unstructured_data(u) =~= start.skip(1));
        }
        if choice == 0 {
            let d = ByteData::from_borrowed(take_rest(u));
            proof {
                assert(d@ =~= start.subrange(1, 1 + d@.len() as int));
            }
            Ok(d)
        } else if choice == 1 {
            let n = data_len(&u);
            let n = if n < 14 {
                n
            } else {
                14
            };
            match take_bytes(&mut u, n) {
                Ok(b) => {
                    let d = ByteData::from_chunk_slice(b);
                    proof {
                        assert(d@ =~= start.subrange(1, 1 + d@.len() as int));
                    }
                    Ok(d)
                },
                Err(e) => Err(e),
            }
        } else {
            match SharedBytes::arbitrary(&mut u) {
                Ok(b) => {
                    let d = ByteData::from_shared(b);
                    proof {
                        assert(d@ =~= start.subrange(1, 1 + d@.len() as int));
                    }
                    Ok(d)
                },
                Err(e) => Err(e),
            }
        }
    }
}

impl<'a> StringData<'a> {
    /// Packs characters, each announced by a set bit, into a chunk until the
    /// next one would not fit in 14 bytes; one that fills it exactly is taken.
    fn chunk_of_chars(u: &mut arbitrary::Unstructured<'a>) -> (res: Result<Self, arbitrary::Error>)
        ensures
            res is Ok,
            res matches Ok(s) ==> s@.len() <= 14,
            res matches Ok(s) ==> s@.len() + 4 * unstructured_data(*final(u)).len() <= 4
                * unstructured_data(*old(u)).len(),
            res matches Ok(s) ==> (s@, unstructured_data(*final(u))) == chunk_chars(
                Seq::<u8>::empty(),
                unstructured_data(*old(u)),
            ),
    {
        let ghost goal = chunk_chars(Seq::<u8>::empty(), unstructured_data(*u));
        let mut buf: Vec<u8> = Vec::new();
        loop
            invariant_except_break
                buf@.len() < 14,
                goal == chunk_chars(buf@, unstructured_data(*u)),
            invariant
                valid_utf8(buf@),
                buf@.len() + 4 * unstructured_data(*u).len() <= 4 * unstructured_data(*old(u)).len(),
            ensures
                valid_utf8(buf@),
                buf@.len() <= 14,
                buf@.len() + 4 * unstructured_data(*u).len() <= 4 * unstructured_data(*old(u)).len(),
                goal == (buf@, unstructured_data(*u)),
            decreases unstructured_data(*u).len(),
        {
            let ghost d0 = unstructured_data(*u);
            let keep = match arbitrary_bool(u) {
                Ok(b) => b,
                Err(_) => false,
            };
            if !keep {
                break ;
            }
            let ghost d1 = unstructured_data(*u);
            let ch = match arbitrary_char(u) {
                Ok(c) => c,
                Err(e) => return Err(e),
            };
            let enc = char_encode_utf8(ch);
            proof {
                lemma_char_width(ch);
                assert(ch == arbitrary_char_value(d1) as char);
                assert(enc@ == char_bytes_of(d1));
            }
            let new_len = buf.len() + enc.len();
            if new_len < 14 {
                proof {
                    crate::char_indices::lemma_decode_concat(buf@, enc@);
                }
                let ghost before = buf@;
                buf.extend_from_slice(enc.as_slice());
                proof {
                    assert(buf@ =~= before + enc@);
                }
                continue ;
            }
            if new_len == 14 {
                proof {
                    crate::char_indices::lemma_decode_concat(buf@, enc@);
                }
                let ghost before = buf@;
                buf.extend_from_slice(enc.as_slice());
                proof {
                    assert(buf@ =~= before + enc@);
                }
            }
            break ;
        }
        Ok(StringData::from_bytedata_unchecked(ByteData::from_chunk_slice(buf.as_slice())))
    }

    /// Text from fuzzer input, held in one of three ways that the first byte
    /// picks: a borrowed prefix of the data, a chunk of characters, or a shared
    /// buffer of characters, each character announced by a set bit.
    pub fn arbitrary(u: &mut arbitrary::Unstructured<'a>) -> (res: Result<Self, arbitrary::Error>)
        requires
            text_pick_fits(unstructured_data(*old(u))),
        ensures
            res is Ok,
            unstructured_data(*old(u)).len() == 0 ==> (res matches Ok(s) && s@.len() == 0),
            unstructured_data(*final(u)).len() <= unstructured_data(*old(u)).len(),
            res matches Ok(s) ==> s@.len() <= 4 * unstructured_data(*old(u)).len(),
            ({
                let d = unstructured_data(*old(u));
                let r = d.skip(1);
                let a = after_len(r);
                d.len() > 0 && choose_value(3, d) == 0 ==> (res matches Ok(s)
                    && longest_valid_prefix(a.take(len_read(r)), s@.len() as int) && s@ == a.take(
                    s@.len() as int,
                ) && unstructured_data(*final(u)) == a.skip(s@.len() as int))
            }),
            unstructured_data(*old(u)).len() > 0 && choose_value(3, unstructured_data(*old(u)))
                == 1 ==> (res matches Ok(s) && (s@, unstructured_data(*final(u))) == chunk_chars(
                Seq::<u8>::empty(),
                unstructured_data(*old(u)).skip(1),
            )),
            unstructured_data(*old(u)).len() > 0 && choose_value(3, unstructured_data(*old(u)))
                == 2 ==> (res matches Ok(s) && (s@, unstructured_data(*final(u))) == shared_chars(
                Seq::<u8>::empty(),
                unstructured_data(*old(u)).skip(1),
            )),
    {
        let ghost start = unstructured_data(*u);
        if data_len(u) == 0 {
            return Ok(StringData::empty());
        }
        let choice = match choose_index(u, 3) {
            Ok(i) => i,
            Err(e) => return Err(e),
        };
        let ghost r = unstructured_data(*u);
        proof {
            assert(r =~= start.skip(1));
        }
        if choice == 0 {
            match arbitrary_str(u) {
                Ok(s) => Ok(StringData::from_borrowed(s)),
                Err(e) => Err(e),
            }
        } else if choice == 1 {
            Self::chunk_of_chars(u)
        } else {
            let mut b = SharedStrBuilder::new();
            proof {
                crate::shared_bytes_builder::lemma_start_offset_bounds(4);
                crate::shared_bytes_builder::lemma_small_pow2s();
            }
            let ghost goal = shared_chars(Seq::<u8>::empty(), r);
            loop
                invariant_except_break
                    goal == shared_chars(b@, unstructured_data(*u)),
                invariant
                    b.spec_align() == 4,
                    b@.len() + 4 * unstructured_data(*u).len() <= 4 * start.len(),
                    goal == shared_chars(Seq::<u8>::empty(), r),
                    goal.0.len() + 12 <= 0xFFFF_FFFF,
                ensures
                    b@.len() <= 4 * start.len(),
                    unstructured_data(*u).len() <= start.len(),
                    goal == (b@, unstructured_data(*u)),
                decreases unstructured_data(*u).len(),
            {
                let ghost d0 = unstructured_data(*u);
                let keep = match arbitrary_bool(u) {
                    Ok(b) => b,
                    Err(_) => false,
                };
                if !keep {
                    break ;
                }
                let ghost d1 = unstructured_data(*u);
                let ch = match arbitrary_char(u) {
                    Ok(c) => c,
                    Err(e) => return Err(e),
                };
                proof {
                    lemma_char_width(ch);
                    crate::shared_bytes_builder::lemma_start_offset_bounds(4);
                    assert(ch == arbitrary_char_value(d1) as char);
                    lemma_shared_chars_grow(b@ + char_bytes_of(d1), unstructured_data(*u));
                }
                b.push(ch);
            }
            Ok(b.build_str())
        }
    }

    /// Text from all the fuzzer input that is left, held in one of three ways
    /// that the first byte picks: the longest valid prefix of the rest, borrowed;
    /// a chunk of characters; or a shared buffer of characters made from all the
    /// rest, which stops where the data runs out: making a value from the
    /// entirety of the data, as `Arbitrary::arbitrary_take_rest` is meant to,
    /// it reads no character past its end.
    pub fn arbitrary_take_rest(u: arbitrary::Unstructured<'a>) -> (res: Result<Self, arbitrary::Error>)
        requires
            text_rest_pick_fits(unstructured_data(u)),
        ensures
            res is Ok,
            unstructured_data(u).len() == 0 ==> (res matches Ok(s) && s@.len() == 0),
            unstructured_data(u).len() > 0 && choose_value(3, unstructured_data(u)) == 0 ==> (
            res matches Ok(s) && longest_valid_prefix(unstructured_data(u).skip(1), s@.len() as int)
                && s@ == unstructured_data(u).skip(1).take(s@.len() as int)),
            unstructured_data(u).len() > 0 && choose_value(3, unstructured_data(u)) == 1 ==> (
            res matches Ok(s) && s@ == chunk_rest(Seq::<u8>::empty(), unstructured_data(u).skip(1))),
            unstructured_data(u).len() > 0 && choose_value(3, unstructured_data(u)) == 2 ==> (
            res matches Ok(s) && s@ == shared_rest(Seq::<u8>::empty(), unstructured_data(u).skip(1))),
    {
        let ghost start = unstructured_data(u);
        let mut u = u;
        if data_len(&u) == 0 {
            return Ok(StringData::empty());
        }
        let choice = match choose_index(&mut u, 3) {
            Ok(i) => i,
            Err(e) => return Err(e),
        };
        let ghost r = unstructured_data(u);
        proof {
            assert(r =~= start.skip(1));
        }
        if choice == 0 {
            match arbitrary_str_take_rest(u) {
                Ok(s) => Ok(StringData::from_borrowed(s)),
                Err(e) => Err(e),
            }
        } else if choice == 1 {
            let ghost goal = chunk_rest(Seq::<u8>::empty(), r);
            let mut buf: Vec<u8> = Vec::new();
            loop
                invariant_except_break
                    buf@.len() < 14,
                    goal == chunk_rest(buf@, unstructured_data(u)),
                invariant
                    valid_utf8(buf@),
                ensures
                    valid_utf8(buf@),
                    buf@.len() <= 14,
                    goal == buf@,
                decreases 14 - buf@.len(),
            {
                let ghost d0 = unstructured_data(u);
                let ch = match arbitrary_char(&mut u) {
                    Ok(c) => c,
                    Err(_) => break ,
                };
                let enc = char_encode_utf8(ch);
                proof {
                    lemma_char_width(ch);
                    assert(ch == arbitrary_char_value(d0) as char);
                    assert(enc@ == char_bytes_of(d0));
                }
                let new_len = buf.len() + enc.len();
                if new_len < 14 {
                    proof {
                        crate::char_indices::lemma_decode_concat(buf@, enc@);
                    }
                    let ghost before = buf@;
                    buf.extend_from_slice(enc.as_slice());
                    proof {
                        assert(buf@ =~= before + enc@);
                    }
                    continue ;
                }
                if new_len == 14 {
                    proof {
                        crate::char_indices::lemma_decode_concat(buf@, enc@);
                    }
                    let ghost before = buf@;
                    buf.extend_from_slice(enc.as_slice());
                    proof {
                        assert(buf@ =~= before + enc@);
                    }
                }
                break ;
            }
            Ok(StringData::from_bytedata_unchecked(ByteData::from_chunk_slice(buf.as_slice())))
        } else {
            let mut b = SharedStrBuilder::new();
            proof {
                crate::shared_bytes_builder::lemma_start_offset_bounds(4);
                crate::shared_bytes_builder::lemma_small_pow2s();
            }
            let ghost goal = shared_rest(Seq::<u8>::empty(), r);
            while data_len(&u) != 0
                invariant_except_break
                    goal == shared_rest(b@, unstructured_data(u)),
                invariant
                    b.spec_align() == 4,
                    goal == shared_rest(Seq::<u8>::empty(), r),
                    goal.len() + 12 <= 0xFFFF_FFFF,
                ensures
                    goal == b@,
                decreases unstructured_data(u).len(),
            {
                let ghost d0 = unstructured_data(u);
                let ch = match arbitrary_char(&mut u) {
                    Ok(c) => c,
                    Err(_) => break ,
                };
                proof {
                    lemma_char_width(ch);
                    crate::shared_bytes_builder::lemma_start_offset_bounds(4);
                    assert(ch == arbitrary_char_value(d0) as char);
                    lemma_shared_rest_grow(b@ + char_bytes_of(d0), unstructured_data(u));
                }
                b.push(ch);
            }
            Ok(b.build_str())
        }
    }
}

/// The queue's bytes and the data left after at most `count` more steps of
/// building a queue from fuzzer input, starting from `buf`: each step makes
/// bytes as `ByteData::arbitrary` does and puts them at the front where the
/// lowest bit of the next byte (which it takes) is set, else at the back; the
/// building stops early where the data runs out.
pub open spec fn queue_steps(buf: Seq<u8>, d: Seq<u8>, count: nat) -> (Seq<u8>, Seq<u8>)
    decreases count,
{
    if d.len() == 0 || count == 0 {
        (buf, d)
    } else {
        let p = data_parts(d);
        let d1 = p.1;
        let front = d1.len() > 0 && d1[0] % 2 == 1;
        let d2 = d1.skip(min_int(1, d1.len() as int));
        queue_steps(
            if front {
                p.0 + buf
            } else {
                buf + p.0
            },
            d2,
            (count - 1) as nat,
        )
    }
}

impl<'a> ByteQueue<'a> {
    /// A queue from fuzzer input: up to a number of chunks read from the end of
    /// the data, each made as `ByteData::arbitrary` does and put at the front or
    /// the back as the next bit says. On data within 16 bytes of `0xFFFF_FFFF`
    /// long, a shared chunk may stop short at its buffer's cap, and only the
    /// bounds below are stated there.
    pub fn arbitrary(u: &mut arbitrary::Unstructured<'a>) -> (res: Result<Self, arbitrary::Error>)
        ensures
            res is Ok,
            res matches Ok(q) ==> q@.len() + unstructured_data(*final(u)).len() <= unstructured_data(
                *old(u),
            ).len(),
            unstructured_data(*old(u)).len() == 0 ==> (res matches Ok(q) && q@.len() == 0),
            unstructured_data(*old(u)).len() + 16 <= 0xFFFF_FFFF ==> (res matches Ok(q) && (
            q@,
            unstructured_data(*final(u)),
            ) == queue_steps(
                Seq::<u8>::empty(),
                after_len(unstructured_data(*old(u))),
                len_read(unstructured_data(*old(u))) as nat,
            )),
    {
        let ghost start = unstructured_data(*u);
        let _total = data_len(u);
        let mut buffer = ByteQueue::new();
        let mut maxlen = match arbitrary_byte_len(u) {
            Ok(n) => n,
            Err(e) => return Err(e),
        };
        let ghost goal = queue_steps(Seq::<u8>::empty(), after_len(start), len_read(start) as nat);
        while data_len(u) != 0 && maxlen != 0
            invariant
                buffer@.len() + unstructured_data(*u).len() <= start.len(),
                start.len() <= usize::MAX,
                start.len() == 0 ==> buffer@.len() == 0,
                goal == queue_steps(Seq::<u8>::empty(), after_len(start), len_read(start) as nat),
                start.len() + 16 <= 0xFFFF_FFFF ==> goal == queue_steps(
                    buffer@,
                    unstructured_data(*u),
                    maxlen as nat,
                ),
            decreases maxlen,
        {
            let ghost d0 = unstructured_data(*u);
            let ghost b0 = buffer@;
            let ghost m0 = maxlen;
            let data = match ByteData::arbitrary(u) {
                Ok(d) => d,
                Err(e) => return Err(e),
            };
            maxlen -= 1;
            let ghost d1 = unstructured_data(*u);
            let dir = match arbitrary_bool(u) {
                Ok(b) => b,
                Err(_) => false,
            };
            if dir {
                buffer.push_front(data);
            } else {
                buffer.push_back(data);
            }
            proof {
                if start.len() + 16 <= 0xFFFF_FFFF {
                    assert(goal == queue_steps(b0, d0, m0 as nat));
                    assert(queue_steps(b0, d0, m0 as nat) == queue_steps(
                        buffer@,
                        unstructured_data(*u),
                        maxlen as nat,
                    ));
                }
            }
        }
        proof {
            if start.len() + 16 <= 0xFFFF_FFFF {
                assert(queue_steps(buffer@, unstructured_data(*u), maxlen as nat) == (
                    buffer@,
                    unstructured_data(*u),
                ));
            }
        }
        Ok(buffer)
    }

    /// A queue from all the fuzzer input that is left: chunks made as
    /// `ByteData::arbitrary` does, each put at the front or the back as the next
    /// bit says, until the data runs out. On data within 16 bytes of
    /// `0xFFFF_FFFF` long, a shared chunk may stop short at its buffer's cap, and
    /// only the bounds below are stated there.
    pub fn arbitrary_take_rest(u: arbitrary::Unstructured<'a>) -> (res: Result<Self, arbitrary::Error>)
        ensures
            res is Ok,
            res matches Ok(q) ==> q@.len() <= unstructured_data(u).len(),
            unstructured_data(u).len() == 0 ==> (res matches Ok(q) && q@.len() == 0),
            unstructured_data(u).len() + 16 <= 0xFFFF_FFFF ==> (res matches Ok(q) && q@
                == queue_steps(
                Seq::<u8>::empty(),
                unstructured_data(u),
                unstructured_data(u).len(),
            ).0),
    {
        let ghost start = unstructured_data(u);
        let mut u = u;
        let _total = data_len(&u);
        let mut buffer = ByteQueue::new();
        let ghost goal = queue_steps(Seq::<u8>::empty(), start, start.len());
        let ghost mut fuel: nat = start.len();
        while data_len(&u) != 0
            invariant
                buffer@.len() + unstructured_data(u).len() <= start.len(),
                start.len() <= usize::MAX,
                unstructured_data(u).len() <= fuel,
                goal == queue_steps(Seq::<u8>::empty(), start, start.len()),
                start.len() + 16 <= 0xFFFF_FFFF ==> goal == queue_steps(
                    buffer@,
                    unstructured_data(u),
                    fuel,
                ),
            decreases unstructured_data(u).len(),
        {
            let ghost d0 = unstructured_data(u);
            let ghost b0 = buffer@;
            let ghost f0 = fuel;
            let data = match ByteData::arbitrary(&mut u) {
                Ok(d) => d,
                Err(e) => return Err(e),
            };
            let dir = match arbitrary_bool(&mut u) {
                Ok(b) => b,
                Err(_) => false,
            };
            if dir {
                buffer.push_front(data);
            } else {
                buffer.push_back(data);
            }
            proof {
                fuel = (f0 - 1) as nat;
                if start.len() + 16 <= 0xFFFF_FFFF {
                    assert(goal == queue_steps(b0, d0, f0));
                    assert(queue_steps(b0, d0, f0) == queue_steps(
                        buffer@,
                        unstructured_data(u),
                        fuel,
                    ));
                }
            }
        }
        proof {
            if start.len() + 16 <= 0xFFFF_FFFF {
                assert(queue_steps(buffer@, unstructured_data(u), fuel) == (
                    buffer@,
                    unstructured_data(u),
                ));
            }
        }
        Ok(buffer)
    }
}

} // verus!
