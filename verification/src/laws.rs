//! Properties that relate several operations of the library, or that hold of
//! every input of one.
use vstd::prelude::*;
use vstd::std_specs::cmp::PartialEqSpec;
use vstd::utf8::*;

use crate::byte_string_render::{escape_byte, escape_bytes, ByteStringRender};
use crate::bytedata::{first_position, join_with, split_parts, ByteData};
use crate::bytes_interop::bytes_content;
use crate::char_indices::{
    decode_outcome, decoded_values, first_non_continuation, lead_width, lemma_decode_error_len,
    lemma_first_non_continuation_at, lemma_first_non_continuation_prefix,
    lemma_first_non_continuation_not, lemma_first_non_continuation_range,
    lemma_first_scalar_alone, lemma_valid_decodes, Utf8CharError, Utf8CharIndices,
};
use crate::ordering::lex_order;
use crate::parser_input::{bytes_agree, compare_bytes, min_len, CompareResult};
use crate::slices::{first_occurrence, lemma_find_first, lemma_first_occurrence_unique, never_occurs, occurs_at};
use crate::queue::byte_queue::ByteQueue;
use crate::queue::byte_queue::{flat, lemma_flat_last};
use crate::queue::string_queue::{chunks_valid, lemma_chunks_valid};
use crate::shared_bytes_builder::{is_pow2, next_pow2};
use crate::stringdata::{string_bytes, StringData};

verus! {

/// Splitting a `ByteData` and putting the two parts back together gives the
/// original bytes.
pub proof fn law_split_at_rejoins<'a>(
    d: ByteData<'a>,
    n: usize,
    parts: (ByteData<'a>, ByteData<'a>),
)
    requires
        n <= d@.len(),
        call_ensures(ByteData::<'a>::split_at, (d, n), parts),
    ensures
        parts.0@ + parts.1@ == d@,
{
    assert(parts.0@ + parts.1@ =~= d@);
}

/// The parts still to come, joined with the separator, give the bytes still to
/// come, and none of them holds a non-empty separator; where bytes are left or
/// an empty part is owed, there is at least one part.
proof fn lemma_split_parts_rejoin(rest: Seq<u8>, needle: Seq<u8>, trailing: bool)
    requires
        rest.len() == 0 ==> trailing,
    ensures
        split_parts(rest, needle, trailing).len() > 0,
        join_with(split_parts(rest, needle, trailing), needle) == rest,
        needle.len() > 0 ==> forall|i: int|
            0 <= i < split_parts(rest, needle, trailing).len() ==> never_occurs(
                #[trigger] split_parts(rest, needle, trailing)[i],
                needle,
            ),
    decreases rest.len(),
{
    let parts = split_parts(rest, needle, trailing);
    if rest.len() == 0 {
        assert(parts[0] == rest);
        assert forall|q: int| needle.len() > 0 implies !#[trigger] occurs_at(parts[0], needle, q) by {}
    } else if needle.len() == 0 || never_occurs(rest, needle) {
    } else {
        let q = choose|q: int| occurs_at(rest, needle, q);
        let f = lemma_find_first(rest, needle, q);
        lemma_first_occurrence_unique(rest, needle, f);
        let p = first_position(rest, needle);
        assert(first_occurrence(rest, needle, p));
        assert(p == f);
        let n = needle.len() as int;
        let after = rest.skip(p + n);
        lemma_split_parts_rejoin(after, needle, after.len() == 0);
        let rec = split_parts(after, needle, after.len() == 0);
        assert(parts == seq![rest.take(p)] + rec);
        assert(parts.drop_first() =~= rec);
        assert(parts[0] == rest.take(p));
        assert(rest.subrange(p, p + n) == needle);
        assert(rest =~= rest.take(p) + needle + after);
        assert forall|i: int| 0 <= i < parts.len() implies never_occurs(#[trigger] parts[i], needle) by {
            if i == 0 {
                assert forall|r: int| !#[trigger] occurs_at(parts[0], needle, r) by {
                    if occurs_at(parts[0], needle, r) {
                        assert(rest.subrange(r, r + n) =~= parts[0].subrange(r, r + n));
                        assert(occurs_at(rest, needle, r));
                    }
                }
            } else {
                assert(parts[i] == rec[i - 1]);
            }
        }
    }
}

/// Splitting bytes on a separator gives parts that, joined with the separator
/// between each two of them, give the bytes back; none of the parts holds the
/// separator where it is not empty.
pub proof fn law_split_parts_rejoin(data: Seq<u8>, needle: Seq<u8>)
    ensures
        join_with(split_parts(data, needle, false), needle) == data,
        needle.len() > 0 ==> forall|i: int|
            0 <= i < split_parts(data, needle, false).len() ==> never_occurs(
                #[trigger] split_parts(data, needle, false)[i],
                needle,
            ),
{
    if data.len() == 0 {
        assert(join_with(split_parts(data, needle, false), needle) =~= data);
    } else {
        lemma_split_parts_rejoin(data, needle, false);
    }
}

/// A `ByteData` over static bytes and one that borrows the same bytes are equal:
/// equality goes by the bytes, not by how they are held.
pub proof fn law_static_equals_borrowed(s: &'static [u8], a: ByteData<'static>, b: ByteData<'static>)
    requires
        call_ensures(ByteData::<'static>::from_static, (s,), a),
        call_ensures(ByteData::<'static>::from_borrowed, (s,), b),
    ensures
        a.eq_spec(&b),
        a@ == b@,
{
}

/// Handing the bytes to a `bytes::Bytes` and taking them back keeps them.
pub proof fn law_bytes_round_trip<'a>(d: ByteData<'a>, b: bytes::Bytes, back: ByteData<'a>)
    requires
        call_ensures(ByteData::<'a>::into_bytes, (d,), b),
        call_ensures(ByteData::<'a>::from_bytes, (b,), back),
    ensures
        back@ == d@,
{
}

/// Handing the bytes of a `Vec` to a `ByteData` and taking them back out as a
/// `Vec` keeps them.
pub proof fn law_vec_round_trip<'a>(v: Vec<u8>, d: ByteData<'a>, back: Vec<u8>)
    requires
        call_ensures(ByteData::<'a>::from_external, (v,), d),
        call_ensures(ByteData::<'a>::into_vec, (d,), back),
    ensures
        back@ == v@,
{
}

/// Slicing a slice is slicing the original at the sum of the offsets.
pub proof fn law_sliced_twice<'a>(
    d: ByteData<'a>,
    r1: core::ops::Range<usize>,
    s1: ByteData<'a>,
    r2: core::ops::Range<usize>,
    s2: ByteData<'a>,
)
    requires
        r1.start <= r1.end <= d@.len(),
        r2.start <= r2.end <= r1.end - r1.start,
        call_ensures(ByteData::<'a>::sliced, (&d, r1), s1),
        call_ensures(ByteData::<'a>::sliced, (&s1, r2), s2),
    ensures
        s2@ == d@.subrange(r1.start + r2.start, r1.start + r2.end),
{
    assert(s2@ =~= d@.subrange(r1.start + r2.start, r1.start + r2.end));
}

/// Copying a range of the bytes into a shared buffer gives the same bytes as
/// moving all of them there and then slicing.
pub proof fn law_shared_range_is_shared_then_sliced<'a, 's>(
    d: ByteData<'a>,
    r: core::ops::Range<usize>,
    direct: ByteData<'s>,
    shared: ByteData<'s>,
    sliced: ByteData<'s>,
)
    requires
        r.start <= r.end <= d@.len(),
        call_ensures(ByteData::<'a>::into_shared_range::<'s>, (d, r), direct),
        call_ensures(ByteData::<'a>::into_shared::<'s>, (d,), shared),
        call_ensures(ByteData::<'s>::into_sliced, (shared, r), sliced),
    ensures
        direct@ == sliced@,
        direct.spec_is_owned_or_static(),
        sliced.spec_is_owned_or_static(),
{
}

/// The same holds of text: a shared range is the shared text, sliced.
pub proof fn law_text_shared_range_is_shared_then_sliced<'a, 's>(
    d: StringData<'a>,
    r: core::ops::Range<usize>,
    direct: StringData<'s>,
    shared: StringData<'s>,
    sliced: StringData<'s>,
)
    requires
        d.valid_range(r.start as int, r.end as int),
        call_ensures(StringData::<'a>::into_shared_range::<'s>, (d, r), direct),
        call_ensures(StringData::<'a>::into_shared::<'s>, (d,), shared),
        call_ensures(StringData::<'s>::into_sliced, (shared, r), sliced),
    ensures
        direct@ == sliced@,
        direct.spec_is_owned_or_static(),
        sliced.spec_is_owned_or_static(),
{
}

/// The bytes of any text are valid UTF-8.
pub proof fn law_text_is_valid_utf8<'a, 'b>(s: &'b StringData<'a>, bytes: &'b [u8])
    requires
        call_ensures(StringData::<'a>::as_bytes, (s,), bytes),
    ensures
        valid_utf8(bytes@),
{
}

/// The debug rendering of bytes is their plain rendering between `b"` and `"`.
pub proof fn law_debug_quotes_display<'a>(r: ByteStringRender<'a>, plain: String, debug: String)
    requires
        call_ensures(ByteStringRender::<'a>::to_string, (&r,), plain),
        call_ensures(ByteStringRender::<'a>::to_debug_string, (&r,), debug),
    ensures
        string_bytes(&debug) == seq![0x62u8, 0x22u8] + string_bytes(&plain) + seq![0x22u8],
{
}

/// Escaping is done byte by byte: escaping joined bytes joins their escapes.
pub proof fn law_escape_concat(a: Seq<u8>, b: Seq<u8>)
    ensures
        escape_bytes(a + b) == escape_bytes(a) + escape_bytes(b),
    decreases b.len(),
{
    if b.len() == 0 {
        assert(a + b =~= a);
        assert(escape_bytes(a) + escape_bytes(b) =~= escape_bytes(a));
    } else {
        law_escape_concat(a, b.drop_last());
        assert((a + b).drop_last() =~= a + b.drop_last());
        assert((a + b).last() == b.last());
        assert(escape_bytes(a + b) =~= escape_bytes(a) + escape_bytes(b.drop_last()) + escape_byte(
            b.last(),
        ));
    }
}

/// Printable ASCII other than the backslash and the double quote is rendered
/// as it is.
pub proof fn law_escape_plain_text(s: Seq<u8>)
    requires
        forall|i: int|
            0 <= i < s.len() ==> 32 <= #[trigger] s[i] < 127 && s[i] != 0x5C && s[i] != 0x22,
    ensures
        escape_bytes(s) == s,
    decreases s.len(),
{
    if s.len() > 0 {
        law_escape_plain_text(s.drop_last());
        assert(s.drop_last().push(s.last()) =~= s);
    }
}

/// On valid UTF-8, the character iterator meets no error and yields exactly the
/// characters that UTF-8 decoding gives, in order.
pub proof fn law_valid_utf8_decodes(d: Seq<u8>)
    requires
        valid_utf8(d),
    ensures
        decoded_values(d) == decode_utf8(d).map_values(|c: char| Ok::<u32, int>(c as u32)),
    decreases d.len(),
{
    if d.len() == 0 {
        assert(decode_utf8(d) =~= Seq::<char>::empty());
        assert(decoded_values(d) =~= Seq::<Result<u32, int>>::empty());
    } else {
        lemma_valid_decodes(d);
        lemma_first_scalar_alone(d);
        let w = length_of_first_scalar(d);
        let rest = d.skip(w);
        law_valid_utf8_decodes(rest);
        let c = decode_first_scalar(d) as char;
        assert(c as u32 == decode_first_scalar(d));
        assert(decode_utf8(d).map_values(|c: char| Ok::<u32, int>(c as u32)) =~= seq![
            Ok::<u32, int>(c as u32),
        ] + decode_utf8(rest).map_values(|c: char| Ok::<u32, int>(c as u32)));
    }
}

/// The buffer sizes chosen are the least power of two that is at least the
/// size needed.
pub proof fn law_next_pow2_least(n: int, p: int)
    requires
        is_pow2(p),
        p >= n,
    ensures
        is_pow2(next_pow2(n)),
        next_pow2(n) >= n,
        next_pow2(n) <= p,
{
    crate::shared_bytes_builder::lemma_next_pow2_least(1, n, p);
}

/// A queue of valid UTF-8 chunks holds valid UTF-8 text, whose characters are
/// those of its chunks one after the other.
pub proof fn law_text_chunks_join<'a>(s: Seq<ByteData<'a>>)
    requires
        chunks_valid(s),
    ensures
        valid_utf8(flat(s)),
        decode_utf8(flat(s)) == s.map_values(|c: ByteData<'a>| decode_utf8(c@)).flatten(),
    decreases s.len(),
{
    lemma_chunks_valid(s);
    if s.len() == 0 {
        assert(flat(s) =~= Seq::<u8>::empty());
        assert(decode_utf8(flat(s)) =~= Seq::<char>::empty());
        assert(s.map_values(|c: ByteData<'a>| decode_utf8(c@)) =~= Seq::<Seq<char>>::empty());
    } else {
        let init = s.drop_last();
        assert(chunks_valid(init)) by {
            assert forall|i: int| 0 <= i < init.len() implies valid_utf8(#[trigger] init[i]@) by {
                assert(init[i] == s[i]);
            }
        }
        law_text_chunks_join(init);
        lemma_flat_last(s);
        assert(s.drop_last() =~= s.subrange(0, s.len() - 1));
        crate::char_indices::lemma_decode_concat(flat(init), s.last()@);
        let m = s.map_values(|c: ByteData<'a>| decode_utf8(c@));
        assert(m.drop_last() =~= init.map_values(|c: ByteData<'a>| decode_utf8(c@)));
        m.drop_last().lemma_flatten_push(m.last());
        assert(m =~= m.drop_last().push(m.last()));
    }
}

/// The order of byte strings calls two of them equal exactly when they hold the
/// same bytes.
pub proof fn law_order_equal_iff_same(a: Seq<u8>, b: Seq<u8>)
    ensures
        lex_order(a, b) == 0 <==> a == b,
    decreases a.len(),
{
    if a.len() > 0 && b.len() > 0 && a[0] == b[0] {
        law_order_equal_iff_same(a.drop_first(), b.drop_first());
        if a.drop_first() == b.drop_first() {
            assert(a =~= seq![a[0]] + a.drop_first());
            assert(b =~= seq![b[0]] + b.drop_first());
        }
        if a == b {
            assert(a.drop_first() =~= b.drop_first());
        }
    } else if a.len() == 0 && b.len() == 0 {
        assert(a =~= b);
    }
}

/// Swapping the two byte strings reverses their order.
pub proof fn law_order_antisymmetric(a: Seq<u8>, b: Seq<u8>)
    ensures
        lex_order(a, b) == -lex_order(b, a),
    decreases a.len(),
{
    if a.len() > 0 && b.len() > 0 && a[0] == b[0] {
        law_order_antisymmetric(a.drop_first(), b.drop_first());
    }
}

/// The order of byte strings is transitive.
pub proof fn law_order_transitive(a: Seq<u8>, b: Seq<u8>, c: Seq<u8>)
    requires
        lex_order(a, b) <= 0,
        lex_order(b, c) <= 0,
    ensures
        lex_order(a, c) <= 0,
    decreases a.len(),
{
    if a.len() > 0 && b.len() > 0 && c.len() > 0 && a[0] == b[0] && b[0] == c[0] {
        law_order_transitive(a.drop_first(), b.drop_first(), c.drop_first());
    }
}

/// A copy of bytes and a slice over all of them hold the same bytes, so the
/// same length, first byte and last byte.
pub proof fn law_clone_and_full_slice_keep_bytes<'a>(
    d: ByteData<'a>,
    copy: ByteData<'a>,
    full: ByteData<'a>,
)
    requires
        call_ensures(ByteData::<'a>::clone, (&d,), copy),
        call_ensures(ByteData::<'a>::sliced, (&d, 0..d@.len() as usize), full),
        d@.len() <= usize::MAX,
    ensures
        copy@ == d@,
        full@ == d@,
{
    assert(full@ =~= d@);
}

/// Splitting a queue's bytes at any point and appending the part split off
/// (`split_off`, then `append`) gives the bytes back: `split_off` keeps the
/// bytes before the point and hands out those after it, and `append` adds
/// bytes at the back.
pub proof fn law_split_off_then_append_restores(
    before: Seq<u8>,
    at: int,
    kept: Seq<u8>,
    split: Seq<u8>,
    after: Seq<u8>,
)
    requires
        0 <= at <= before.len(),
        kept == before.take(at),
        split == before.skip(at),
        after == kept + split,
    ensures
        after == before,
{
    assert(after =~= before);
}

/// Pushing bytes to the front of a queue and draining them together with the
/// byte after them removes just that byte from the queue: `push_front` puts
/// the bytes before the rest and `drain` removes the range it is given.
pub proof fn law_push_front_then_drain(
    before: Seq<u8>,
    front: Seq<u8>,
    pushed: Seq<u8>,
    drained: Seq<u8>,
    after: Seq<u8>,
)
    requires
        before.len() > 0,
        pushed == front + before,
        drained == pushed.subrange(0, front.len() + 1int),
        after == pushed.take(0) + pushed.skip(front.len() + 1int),
    ensures
        after == before.skip(1),
        drained == front.push(before[0]),
{
    assert(after =~= before.skip(1));
    assert(drained =~= front.push(before[0]));
}

/// An exact comparison matches precisely when the expected value is a prefix
/// of the input, and asks for more input precisely when the input is a proper
/// prefix of the expected value.
pub proof fn law_compare_is_prefix_test(a: Seq<u8>, t: Seq<u8>)
    ensures
        (compare_bytes(a, t, false) == CompareResult::Matches) <==> t.is_prefix_of(a),
        (compare_bytes(a, t, false) == CompareResult::Incomplete) <==> (a.len() < t.len()
            && a.is_prefix_of(t)),
{
    let n = min_len(a.len() as int, t.len() as int);
    if t.is_prefix_of(a) {
        assert forall|i: int| 0 <= i < n implies #[trigger] bytes_agree(
            a[i],
            t[i],
            false,
        ) by {
            assert(a.subrange(0, t.len() as int)[i] == a[i]);
        }
    }
    if a.len() < t.len() && a.is_prefix_of(t) {
        assert forall|i: int| 0 <= i < n implies #[trigger] bytes_agree(
            a[i],
            t[i],
            false,
        ) by {
            assert(t.subrange(0, a.len() as int)[i] == t[i]);
        }
    }
    if compare_bytes(a, t, false) == CompareResult::Matches {
        assert(a.subrange(0, t.len() as int) =~= t) by {
            assert forall|i: int| 0 <= i < t.len() implies a.subrange(0, t.len() as int)[i] == t[i] by {
                assert(bytes_agree(a[i], t[i], false));
            }
        }
    }
    if compare_bytes(a, t, false) == CompareResult::Incomplete {
        assert(t.subrange(0, a.len() as int) =~= a) by {
            assert forall|i: int| 0 <= i < a.len() implies t.subrange(0, a.len() as int)[i] == a[i] by {
                assert(bytes_agree(a[i], t[i], false));
            }
        }
    }
}

/// Comparing a queue gives what comparing a `ByteData` with the same bytes
/// gives, however the queue is chunked.
pub proof fn law_queue_compare_ignores_chunking<'a, 'b, 'c>(
    q: &'c ByteQueue<'a>,
    d: &'c ByteData<'b>,
    t: &'c [u8],
    from_queue: CompareResult,
    from_data: CompareResult,
)
    requires
        q@ == d@,
        call_ensures(ByteQueue::<'a>::compare, (q, t), from_queue),
        call_ensures(ByteData::<'b>::compare, (d, t), from_data),
    ensures
        from_queue == from_data,
{
}

/// Decoding gives a character exactly where the bytes start with a valid
/// UTF-8 encoding of one (overlong forms and surrogates are refused), and then
/// the bytes it consumes are that character's own encoding.
pub proof fn law_decode_is_exact(d: Seq<u8>)
    requires
        d.len() > 0,
    ensures
        decode_outcome(d) is Ok <==> valid_first_scalar(d),
        decode_outcome(d) matches Ok((v, w)) ==> v == decode_first_scalar(d) && w
            == length_of_first_scalar(d) && d.take(w) == encode_utf8(seq![v as char]),
{
    reveal_with_fuel(first_non_continuation, 4);
    lemma_decode_error_len(d);
    if valid_first_scalar(d) {
        let w = length_of_first_scalar(d);
        assert(1 <= w <= d.len());
        let t = d.take(w);
        assert(valid_first_scalar(t)) by {
            assert(t[0] == d[0]);
            if w >= 2 {
                assert(t[1] == d[1]);
            }
            if w >= 3 {
                assert(t[2] == d[2]);
            }
            if w >= 4 {
                assert(t[3] == d[3]);
            }
        }
        assert(length_of_first_scalar(t) == w);
        assert(pop_first_scalar(t) =~= Seq::<u8>::empty());
        reveal_with_fuel(valid_utf8, 2);
        assert(valid_utf8(t));
        lemma_valid_decodes(t);
        assert(decode_outcome(t) == decode_outcome(d));
        lemma_first_scalar_alone(t);
        assert(t.take(w) =~= t);
        decode_utf8_encode_utf8(t);
    }
}

/// Bytes that decode to characters throughout, with no error, are valid UTF-8.
pub proof fn law_no_error_means_valid(d: Seq<u8>)
    requires
        forall|i: int| 0 <= i < decoded_values(d).len() ==> #[trigger] decoded_values(d)[i] is Ok,
    ensures
        valid_utf8(d),
    decreases d.len(),
{
    if d.len() > 0 {
        lemma_decode_error_len(d);
        assert(decoded_values(d)[0] is Ok);
        law_decode_is_exact(d);
        let w = length_of_first_scalar(d);
        let rest = d.skip(w);
        assert forall|i: int| 0 <= i < decoded_values(rest).len() implies #[trigger] decoded_values(
            rest,
        )[i] is Ok by {
            assert(decoded_values(d)[i + 1] == decoded_values(rest)[i]);
        }
        law_no_error_means_valid(rest);
        assert(pop_first_scalar(d) =~= rest);
    }
}

/// Where the first byte announces a character of `w` bytes and the data holds
/// that many, but the byte at `i` (below `w`) is the first after the lead byte
/// that is no continuation byte, decoding reports an invalid sequence of `i`
/// bytes at the current position: the lead byte and the continuation bytes
/// after it, cut short.
pub proof fn law_truncated_sequence_error<'a>(
    it: Utf8CharIndices<'a>,
    res: Result<(Utf8CharIndices<'a>, usize, char), (Utf8CharIndices<'a>, Utf8CharError)>,
    w: int,
    i: int,
)
    requires
        call_ensures(Utf8CharIndices::<'a>::next_const, (it,), res),
        it.spec_data().len() >= w,
        (w == 2 && is_leading_byte_width_2(it.spec_data()[0])) || (w == 3
            && is_leading_byte_width_3(it.spec_data()[0])) || (w == 4
            && is_leading_byte_width_4(it.spec_data()[0])),
        1 <= i < w,
        forall|j: int| 1 <= j < i ==> is_continuation_byte(#[trigger] it.spec_data()[j]),
        !is_continuation_byte(it.spec_data()[i]),
    ensures
        res matches Err((_, err)) && err.error_len == i && err.valid_up_to == it.spec_offset() as usize,
{
    let d = it.spec_data();
    assert(lead_width(d[0]) == w);
    lemma_first_non_continuation_at(d, 1, i, w);
    assert(first_non_continuation(d, 1, w) == i);
    assert(decode_outcome(d) == Err::<(u32, int), int>(i));
    assert(res matches Err((_, err)) && err.error_len == (i as u8));
}

/// Every invalid sequence reported on non-empty data starts at the current
/// position, lies within the data, and is the first byte followed only by
/// continuation bytes; decoding then goes on one byte further.
pub proof fn law_error_is_lead_and_continuations<'a>(
    it: Utf8CharIndices<'a>,
    res: Result<(Utf8CharIndices<'a>, usize, char), (Utf8CharIndices<'a>, Utf8CharError)>,
)
    requires
        call_ensures(Utf8CharIndices::<'a>::next_const, (it,), res),
        it.spec_data().len() > 0,
    ensures
        res matches Err((this, err)) ==> {
            &&& 1 <= err.error_len <= it.spec_data().len()
            &&& err.error_len <= 4
            &&& err.valid_up_to == it.spec_offset() as usize
            &&& forall|j: int|
                1 <= j < err.error_len ==> is_continuation_byte(#[trigger] it.spec_data()[j])
            &&& this.spec_data() == it.spec_data().skip(1)
            &&& this.spec_offset() == it.spec_offset() + 1
        },
{
    let d = it.spec_data();
    lemma_decode_error_len(d);
    let w = lead_width(d[0]);
    if 2 <= w <= d.len() {
        lemma_first_non_continuation_range(d, 1, w);
        lemma_first_non_continuation_prefix(d, 1, w);
    }
}

/// A character is decoded exactly where the data starts with a valid UTF-8
/// encoding of one; it is the one whose encoding the data starts with, and
/// decoding goes on right after it.
pub proof fn law_decoded_char_is_encoded<'a>(
    it: Utf8CharIndices<'a>,
    res: Result<(Utf8CharIndices<'a>, usize, char), (Utf8CharIndices<'a>, Utf8CharError)>,
)
    requires
        call_ensures(Utf8CharIndices::<'a>::next_const, (it,), res),
    ensures
        it.spec_data().len() > 0 ==> (res is Ok <==> valid_first_scalar(it.spec_data())),
        res matches Ok((this, pos, c)) ==> {
            &&& it.spec_data() == encode_utf8(seq![c]) + this.spec_data()
            &&& pos == it.spec_offset()
            &&& this.spec_offset() == it.spec_offset() + encode_utf8(seq![c]).len()
        },
{
    let d = it.spec_data();
    if d.len() > 0 {
        law_decode_is_exact(d);
        lemma_decode_error_len(d);
        if let Ok((this, pos, c)) = res {
            let w = length_of_first_scalar(d);
            char_u32_cast(c, c as u32);
            assert(seq![(c as u32) as char] =~= seq![c]);
            assert(d =~= d.take(w) + d.skip(w));
        }
    }
}

/// A first byte that starts no character (a continuation byte, or one of
/// `0xF8` and above) is reported as an invalid sequence of one byte.
pub proof fn law_bad_lead_byte_error<'a>(
    it: Utf8CharIndices<'a>,
    res: Result<(Utf8CharIndices<'a>, usize, char), (Utf8CharIndices<'a>, Utf8CharError)>,
)
    requires
        call_ensures(Utf8CharIndices::<'a>::next_const, (it,), res),
        it.spec_data().len() > 0,
        !is_leading_byte_width_1(it.spec_data()[0]),
        !is_leading_byte_width_2(it.spec_data()[0]),
        !is_leading_byte_width_3(it.spec_data()[0]),
        !is_leading_byte_width_4(it.spec_data()[0]),
    ensures
        res matches Err((_, err)) && err.error_len == 1,
{
}

/// Where the first byte announces a character of `w` bytes: data too short
/// for it is an invalid sequence of one byte; `w` well-formed bytes that encode
/// a value which fewer bytes could hold (an overlong form) are one invalid
/// byte; `w` well-formed bytes that encode no Unicode scalar value (a surrogate,
/// or past `0x10FFFF`) are an invalid sequence of all `w` bytes.
pub proof fn law_error_len_for_announced_width<'a>(
    it: Utf8CharIndices<'a>,
    res: Result<(Utf8CharIndices<'a>, usize, char), (Utf8CharIndices<'a>, Utf8CharError)>,
    w: int,
)
    requires
        call_ensures(Utf8CharIndices::<'a>::next_const, (it,), res),
        it.spec_data().len() > 0,
        (w == 2 && is_leading_byte_width_2(it.spec_data()[0])) || (w == 3
            && is_leading_byte_width_3(it.spec_data()[0])) || (w == 4
            && is_leading_byte_width_4(it.spec_data()[0])),
    ensures
        it.spec_data().len() < w ==> (res matches Err((_, err)) && err.error_len == 1),
        ({
            let d = it.spec_data();
            let v = if w == 2 {
                codepoint_width_2(d[0], d[1])
            } else if w == 3 {
                codepoint_width_3(d[0], d[1], d[2])
            } else {
                codepoint_width_4(d[0], d[1], d[2], d[3])
            };
            let least: u32 = if w == 2 {
                0x80
            } else if w == 3 {
                0x800
            } else {
                0x1_0000
            };
            d.len() >= w && (forall|j: int| 1 <= j < w ==> is_continuation_byte(#[trigger] d[j]))
                ==> {
                &&& v < least ==> (res matches Err((_, err)) && err.error_len == 1)
                &&& least <= v && !is_scalar(v) ==> (res matches Err((_, err)) && err.error_len
                    == w)
            }
        }),
{
    let d = it.spec_data();
    assert(lead_width(d[0]) == w);
    if d.len() >= w && (forall|j: int| 1 <= j < w ==> is_continuation_byte(#[trigger] d[j])) {
        lemma_first_non_continuation_range(d, 1, w);
        if first_non_continuation(d, 1, w) < w {
            assert(is_continuation_byte(d[first_non_continuation(d, 1, w)]));
            lemma_first_non_continuation_not(d, 1, w);
        }
    }
}

} // verus!
