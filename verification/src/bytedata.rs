//! A container of bytes that can be static, borrowed, inline or shared.
use std::borrow::Cow;
use vstd::prelude::*;

use crate::byte_chunk::ByteChunk;
use crate::external::ExtBytes;
use crate::shared_bytes::SharedBytes;
use crate::slices::{first_occurrence, never_occurs};

verus! {

/// How a [`ByteData`] holds its bytes.
#[derive(Clone, Copy, PartialEq, Eq, Debug, Structural)]
pub enum Kind {
    /// Inline, at most 14 bytes.
    Chunk,
    /// A borrowed or static slice.
    Slice,
    /// A slice of a shared buffer.
    Shared,
    /// A view on a buffer that was handed over without copying.
    External,
}

/// The representation of a [`ByteData`].
enum Repr<'a> {
    Chunk(ByteChunk),
    Borrowed(&'a [u8]),
    Static(&'static [u8]),
    Shared(SharedBytes),
    External(ExtBytes),
}

/// A container of bytes that can be either static, borrowed, or shared.
pub struct ByteData<'a> {
    repr: Repr<'a>,
}

impl<'a> View for ByteData<'a> {
    type V = Seq<u8>;

    closed spec fn view(&self) -> Seq<u8> {
        match self.repr {
            Repr::Chunk(c) => c@,
            Repr::Borrowed(s) => s@,
            Repr::Static(s) => s@,
            Repr::Shared(s) => s@,
            Repr::External(e) => e@,
        }
    }
}

impl<'a> ByteData<'a> {
    /// The data lives at least as long as the program: it is inline, static or owned.
    pub closed spec fn spec_is_owned_or_static(&self) -> bool {
        !(self.repr is Borrowed)
    }

    /// How the data is held.
    pub closed spec fn spec_kind(&self) -> Kind {
        match self.repr {
            Repr::Chunk(_) => Kind::Chunk,
            Repr::Borrowed(_) => Kind::Slice,
            Repr::Static(_) => Kind::Slice,
            Repr::Shared(_) => Kind::Shared,
            Repr::External(_) => Kind::External,
        }
    }

    /// Returns an empty `ByteData`.
    pub fn empty() -> (res: Self)
        ensures
            res@ == Seq::<u8>::empty(),
            res.spec_kind() == Kind::Chunk,
    {
        let c = ByteChunk::default();
        ByteData { repr: Repr::Chunk(c) }
    }

    /// How the data is held.
    pub(crate) fn kind(&self) -> (res: Kind)
        ensures
            res == self.spec_kind(),
    {
        match &self.repr {
            Repr::Chunk(_) => Kind::Chunk,
            Repr::Borrowed(_) => Kind::Slice,
            Repr::Static(_) => Kind::Slice,
            Repr::Shared(_) => Kind::Shared,
            Repr::External(_) => Kind::External,
        }
    }

    /// Wraps a view on a handed-over buffer.
    pub(crate) fn from_ext(dat: ExtBytes) -> (res: Self)
        ensures
            res@ == dat@,
            res.spec_kind() == Kind::External,
            res.spec_is_owned_or_static(),
    {
        ByteData { repr: Repr::External(dat) }
    }

    /// Creates a `ByteData` from a static slice of bytes.
    pub fn from_static(dat: &'static [u8]) -> (res: Self)
        ensures
            res@ == dat@,
            res.spec_kind() == if dat@.len() <= 14 {
                Kind::Chunk
            } else {
                Kind::Slice
            },
            res.spec_is_owned_or_static(),
    {
        if dat.len() <= ByteChunk::LEN {
            ByteData { repr: Repr::Chunk(ByteChunk::from_slice(dat)) }
        } else {
            ByteData { repr: Repr::Static(dat) }
        }
    }

    /// Creates a `ByteData` from a slice of at most 14 bytes, stored inline.
    pub fn from_chunk_slice(dat: &[u8]) -> (res: Self)
        requires
            dat@.len() <= 14,
        ensures
            res@ == dat@,
            res.spec_kind() == Kind::Chunk,
            res.spec_is_owned_or_static(),
    {
        if dat.len() == 0 {
            let res = Self::empty();
            assert(res@ =~= dat@);
            res
        } else {
            ByteData { repr: Repr::Chunk(ByteChunk::from_slice(dat)) }
        }
    }

    /// Creates a `ByteData` from a single byte.
    pub fn from_byte(b0: u8) -> (res: Self)
        ensures
            res@ == seq![b0],
            res.spec_kind() == Kind::Chunk,
    {
        ByteData { repr: Repr::Chunk(ByteChunk::from_byte(b0)) }
    }

    /// Creates a `ByteData` from an array of at most 14 bytes, stored inline.
    pub fn from_chunk<const L: usize>(dat: &[u8; L]) -> (res: Self)
        requires
            L <= 14,
        ensures
            res@ == dat@,
            res.spec_kind() == Kind::Chunk,
    {
        if L == 0 {
            let res = Self::empty();
            assert(res@ =~= dat@);
            res
        } else {
            ByteData { repr: Repr::Chunk(ByteChunk::from_array(dat)) }
        }
    }

    /// Creates a `ByteData` from a borrowed slice of bytes.
    pub fn from_borrowed(dat: &'a [u8]) -> (res: Self)
        ensures
            res@ == dat@,
            res.spec_kind() == if dat@.len() <= 14 {
                Kind::Chunk
            } else {
                Kind::Slice
            },
    {
        if dat.len() <= ByteChunk::LEN {
            Self::from_chunk_slice(dat)
        } else {
            ByteData { repr: Repr::Borrowed(dat) }
        }
    }

    /// Creates a `ByteData` from a `SharedBytes`.
    pub fn from_shared(dat: SharedBytes) -> (res: Self)
        ensures
            res@ == dat@,
            res.spec_kind() == Kind::Shared,
    {
        ByteData { repr: Repr::Shared(dat) }
    }

    /// Creates a `ByteData` from a `Vec<u8>` without copying.
    pub fn from_owned(dat: Vec<u8>) -> (res: Self)
        ensures
            res@ == dat@,
            res.spec_kind() == if dat@.len() <= 14 {
                Kind::Chunk
            } else {
                Kind::External
            },
            res.spec_is_owned_or_static(),
    {
        if dat.len() <= ByteChunk::LEN {
            return Self::from_chunk_slice(dat.as_slice());
        }
        ByteData { repr: Repr::External(ExtBytes::create(dat)) }
    }

    /// Creates a `ByteData` from an externally kept byte buffer. A buffer that
    /// can be given up as a vector is kept without copying; a shared `Arc`
    /// buffer is copied (see [`crate::external::ExternalBytes`]).
    pub fn from_external<E: crate::external::ExternalBytes>(dat: E) -> (res: Self)
        ensures
            res@ == dat.spec_external_bytes(),
            res.spec_kind() == if dat.spec_external_bytes().len() <= 14 {
                Kind::Chunk
            } else {
                Kind::External
            },
            res.spec_is_owned_or_static(),
    {
        Self::from_owned(dat.into_byte_vec())
    }

    /// Creates a `ByteData` from a `Cow<'_, [u8]>`.
    pub fn from_cow(dat: Cow<'a, [u8]>) -> (res: Self)
        ensures
            res@ == match dat {
                Cow::Borrowed(b) => b@,
                Cow::Owned(o) => o@,
            },
    {
        match dat {
            Cow::Borrowed(borr) => Self::from_borrowed(borr),
            Cow::Owned(ow) => Self::from_owned(ow),
        }
    }

    /// Creates a `ByteData` from a `Cow<'static, [u8]>`.
    pub fn from_cow_static(dat: Cow<'static, [u8]>) -> (res: Self)
        ensures
            res@ == match dat {
                Cow::Borrowed(b) => b@,
                Cow::Owned(o) => o@,
            },
            res.spec_is_owned_or_static(),
    {
        match dat {
            Cow::Borrowed(borr) => Self::from_static(borr),
            Cow::Owned(ow) => Self::from_owned(ow),
        }
    }

    /// Returns the underlying byte slice.
    pub fn as_slice(&self) -> (res: &[u8])
        ensures
            res@ == self@,
    {
        match &self.repr {
            Repr::Chunk(c) => c.as_slice(),
            Repr::Borrowed(s) => s,
            Repr::Static(s) => s,
            Repr::Shared(s) => s.as_slice(),
            Repr::External(e) => e.as_slice(),
        }
    }

    /// Returns the underlying slice where it is borrowed or static.
    pub fn as_borrowed(&self) -> (res: Option<&'a [u8]>)
        ensures
            res matches Some(s) ==> s@ == self@,
            res is Some <==> self.spec_kind() == Kind::Slice,
    {
        match &self.repr {
            Repr::Borrowed(s) => Some(*s),
            Repr::Static(s) => Some(*s),
            _ => None,
        }
    }

    /// Returns the underlying slice where it is static.
    pub fn as_static(&self) -> (res: Option<&'static [u8]>)
        ensures
            res matches Some(s) ==> s@ == self@,
            res is Some <==> (self.spec_kind() == Kind::Slice && self.spec_is_owned_or_static()),
    {
        match &self.repr {
            Repr::Static(s) => Some(*s),
            _ => None,
        }
    }

    /// Returns the length of the underlying byte slice.
    pub fn len(&self) -> (res: usize)
        ensures
            res == self@.len(),
    {
        match &self.repr {
            Repr::Chunk(c) => c.len(),
            Repr::Borrowed(s) => s.len(),
            Repr::Static(s) => s.len(),
            Repr::Shared(s) => s.len(),
            Repr::External(e) => e.len(),
        }
    }

    /// Returns `true` if the underlying byte slice is empty.
    pub fn is_empty(&self) -> (res: bool)
        ensures
            res == (self@.len() == 0),
    {
        self.len() == 0
    }

    /// Returns the byte at `index`.
    pub fn get(&self, index: usize) -> (res: u8)
        requires
            index < self@.len(),
        ensures
            res == self@[index as int],
    {
        let s = self.as_slice();
        s[index]
    }

    /// Check if the underlying byte slice is equal to another.
    pub fn eq_const(&self, other: &ByteData<'_>) -> (res: bool)
        ensures
            res == (self@ == other@),
    {
        crate::slices::const_eq(self.as_slice(), other.as_slice())
    }

    /// Check if the underlying byte slice is equal to another.
    pub fn eq_slice(&self, other: &[u8]) -> (res: bool)
        ensures
            res == (self@ == other@),
    {
        crate::slices::const_eq(self.as_slice(), other)
    }

    /// Check if the ending of the bytes matches the given bytes.
    pub fn ends_with(&self, needle: &[u8]) -> (res: bool)
        ensures
            res == needle@.is_suffix_of(self@),
    {
        crate::slices::const_ends_with(self.as_slice(), needle)
    }

    /// Check if the beginning of the bytes matches the given bytes.
    pub fn starts_with(&self, needle: &[u8]) -> (res: bool)
        ensures
            res == needle@.is_prefix_of(self@),
    {
        crate::slices::const_starts_with(self.as_slice(), needle)
    }

    /// Returns a `ByteData` with the given range of bytes.
    pub fn sliced(&self, range: core::ops::Range<usize>) -> (res: Self)
        requires
            range.start <= range.end <= self@.len(),
        ensures
            res@ == self@.subrange(range.start as int, range.end as int),
            self.spec_is_owned_or_static() ==> res.spec_is_owned_or_static(),
    {
        let ghost target = self@.subrange(range.start as int, range.end as int);
        match &self.repr {
            Repr::Chunk(c) => ByteData { repr: Repr::Chunk(c.sliced(range)) },
            Repr::Borrowed(s) => {
                let bb = &s[range.start..range.end];
                if bb.len() <= ByteChunk::LEN {
                    Self::from_chunk_slice(bb)
                } else {
                    ByteData { repr: Repr::Borrowed(bb) }
                }
            },
            Repr::Static(s) => {
                let bb: &'static [u8] = slice_static(s, range.start, range.end);
                if bb.len() <= ByteChunk::LEN {
                    Self::from_chunk_slice(bb)
                } else {
                    ByteData { repr: Repr::Static(bb) }
                }
            },
            Repr::Shared(s) => {
                let dat = s.sliced_range(range);
                if dat.len() <= ByteChunk::LEN {
                    Self::from_chunk_slice(dat.as_slice())
                } else {
                    ByteData { repr: Repr::Shared(dat) }
                }
            },
            Repr::External(e) => e.sliced_range(range),
        }
    }

    /// Transform the range of bytes this `ByteData` represents.
    pub fn into_sliced(self, range: core::ops::Range<usize>) -> (res: Self)
        requires
            range.start <= range.end <= self@.len(),
        ensures
            res@ == self@.subrange(range.start as int, range.end as int),
            self.spec_is_owned_or_static() ==> res.spec_is_owned_or_static(),
    {
        match self.repr {
            Repr::Chunk(c) => ByteData { repr: Repr::Chunk(c.into_sliced(range)) },
            Repr::Borrowed(s) => ByteData { repr: Repr::Borrowed(&s[range.start..range.end]) },
            Repr::Static(s) => ByteData {
                repr: Repr::Static(slice_static(s, range.start, range.end)),
            },
            Repr::Shared(s) => {
                let dat = s.into_sliced_range(range);
                if dat.len() <= ByteChunk::LEN {
                    Self::from_chunk_slice(dat.as_slice())
                } else {
                    ByteData { repr: Repr::Shared(dat) }
                }
            },
            Repr::External(e) => {
                let mut e = e;
                e.make_sliced_range(range);
                if e.len() <= ByteChunk::LEN {
                    Self::from_chunk_slice(e.as_slice())
                } else {
                    ByteData { repr: Repr::External(e) }
                }
            },
        }
    }

    /// Transform the range of bytes this `ByteData` represents.
    pub fn make_sliced(&mut self, range: core::ops::Range<usize>)
        requires
            range.start <= range.end <= old(self)@.len(),
        ensures
            final(self)@ == old(self)@.subrange(range.start as int, range.end as int),
            old(self).spec_is_owned_or_static() ==> final(self).spec_is_owned_or_static(),
    {
        let mut taken = ByteData::empty();
        core::mem::swap(self, &mut taken);
        *self = taken.into_sliced(range);
    }

    /// Transform any borrowed data into owned or static data.
    /// This is useful when you wish to change the lifetime of the data.
    /// A long borrowed slice is copied into a shared buffer, so it must fit in one.
    pub fn into_shared<'s>(self) -> (res: ByteData<'s>)
        requires
            !self.spec_is_owned_or_static() ==> self@.len() + 12 <= 0xFFFF_FFFF,
        ensures
            res@ == self@,
            res.spec_is_owned_or_static(),
    {
        match self.repr {
            Repr::Chunk(c) => ByteData { repr: Repr::Chunk(c) },
            Repr::Static(s) => ByteData { repr: Repr::Static(s) },
            Repr::Shared(s) => ByteData { repr: Repr::Shared(s) },
            Repr::External(e) => ByteData { repr: Repr::External(e) },
            Repr::Borrowed(s) => {
                if s.len() <= ByteChunk::LEN {
                    ByteData { repr: Repr::Chunk(ByteChunk::from_slice(s)) }
                } else {
                    ByteData { repr: Repr::Shared(SharedBytes::from_slice(s)) }
                }
            },
        }
    }

    /// Transform any borrowed data into owned or static data of a specific range.
    /// This is useful when you wish to change the lifetime of the data.
    /// A long borrowed range is copied into a shared buffer, so it must fit in one.
    pub fn into_shared_range<'s>(self, range: core::ops::Range<usize>) -> (res: ByteData<'s>)
        requires
            range.start <= range.end <= self@.len(),
            !self.spec_is_owned_or_static() ==> range.end - range.start + 12 <= 0xFFFF_FFFF,
        ensures
            res@ == self@.subrange(range.start as int, range.end as int),
            res.spec_is_owned_or_static(),
    {
        match self.repr {
            Repr::Chunk(c) => ByteData { repr: Repr::Chunk(c.into_sliced(range)) },
            Repr::Shared(s) => ByteData { repr: Repr::Shared(s.into_sliced_range(range)) },
            Repr::External(e) => {
                let mut e = e;
                e.make_sliced_range(range);
                ByteData { repr: Repr::External(e) }
            },
            Repr::Static(s) => {
                let data = slice_static(s, range.start, range.end);
                if data.len() <= ByteChunk::LEN {
                    ByteData { repr: Repr::Chunk(ByteChunk::from_slice(data)) }
                } else {
                    ByteData { repr: Repr::Static(data) }
                }
            },
            Repr::Borrowed(s) => {
                let data = &s[range.start..range.end];
                if data.len() <= ByteChunk::LEN {
                    ByteData { repr: Repr::Chunk(ByteChunk::from_slice(data)) }
                } else {
                    ByteData { repr: Repr::Shared(SharedBytes::from_slice(data)) }
                }
            },
        }
    }

    /// Splits off the first `position` bytes and returns them; the rest stays.
    pub fn take_bytes(&mut self, position: usize) -> (res: Self)
        requires
            position <= old(self)@.len(),
        ensures
            res@ == old(self)@.take(position as int),
            final(self)@ == old(self)@.skip(position as int),
            res@ + final(self)@ == old(self)@,
            old(self).spec_is_owned_or_static() ==> final(self).spec_is_owned_or_static()
                && res.spec_is_owned_or_static(),
    {
        let ghost before = self@;
        if position == 0 {
            let res = ByteData::empty();
            assert(before.skip(0) =~= before);
            assert(res@ + before =~= before);
            return res;
        }
        if position == self.len() {
            let mut res = ByteData::empty();
            core::mem::swap(self, &mut res);
            assert(before.take(position as int) =~= before);
            assert(before.skip(position as int) =~= Seq::<u8>::empty());
            assert(res@ + self@ =~= before);
            return res;
        }
        let aa = self.sliced(0..position);
        let len = self.len();
        self.make_sliced(position..len);
        assert(aa@ + self@ =~= before);
        aa
    }

    /// Consume the `ByteData` until the byte condition is false, returning the
    /// bytes that met it.
    pub fn take_while<F: Fn(u8) -> bool>(&mut self, fun: F) -> (res: Self)
        requires
            forall|b: u8| fun.requires((b,)),
        ensures
            res@ + final(self)@ == old(self)@,
            forall|i: int| 0 <= i < res@.len() ==> fun.ensures((res@[i],), true),
            final(self)@.len() > 0 ==> fun.ensures((final(self)@[0],), false),
            old(self).spec_is_owned_or_static() ==> final(self).spec_is_owned_or_static()
                && res.spec_is_owned_or_static(),
    {
        let mut i: usize = 0;
        let aa = self.as_slice();
        let n = aa.len();
        while i < n
            invariant
                n == aa@.len(),
                aa@ == self@,
                i <= n,
                forall|b: u8| fun.requires((b,)),
                forall|k: int| 0 <= k < i ==> fun.ensures((aa@[k],), true),
            ensures
                i <= n,
                forall|k: int| 0 <= k < i ==> fun.ensures((aa@[k],), true),
                i < n ==> fun.ensures((aa@[i as int],), false),
            decreases n - i,
        {
            let b = aa[i];
            if !fun(b) {
                break;
            }
            i += 1;
        }
        let ghost before = self@;
        let res = self.take_bytes(i);
        assert(res@ =~= before.take(i as int));
        assert(self@ =~= before.skip(i as int));
        res
    }

    /// Split the `ByteData` at the given position.
    pub fn split_at(self, position: usize) -> (res: (Self, Self))
        requires
            position <= self@.len(),
        ensures
            res.0@ == self@.take(position as int),
            res.1@ == self@.skip(position as int),
            self.spec_is_owned_or_static() ==> res.0.spec_is_owned_or_static()
                && res.1.spec_is_owned_or_static(),
    {
        let mut this = self;
        let aa = this.take_bytes(position);
        (aa, this)
    }

    /// Split the `ByteData` at the first occurrence of the given byte sequence.
    /// The occurrence stays at the front of the second part.
    ///
    /// # Errors
    ///
    /// If the byte sequence is not found, the original `ByteData` is returned.
    pub fn split_once_on(self, needle: &[u8]) -> (res: Result<(Self, Self), Self>)
        ensures
            res is Err <==> never_occurs(self@, needle@),
            res matches Err(e) ==> e@ == self@,
            res matches Ok((a, b)) ==> {
                &&& a@ + b@ == self@
                &&& first_occurrence(self@, needle@, a@.len() as int)
            },
    {
        let aa = match crate::slices::const_split_once_bytes(self.as_slice(), needle) {
            Some((aa, _)) => aa.len(),
            None => return Err(self),
        };
        let ghost before = self@;
        let (a, b) = self.split_at(aa);
        assert(a@ + b@ =~= before);
        Ok((a, b))
    }

    /// Iterates over the parts of the `ByteData` between occurrences of `needle`.
    pub fn split_on<'b>(self, needle: &'b [u8]) -> (res: ByteDataSplit<'a, 'b>)
        ensures
            res.spec_rest() == self@,
            res.spec_needle() == needle@,
            !res.spec_trailing(),
    {
        ByteDataSplit { rest: self, needle, trailing: false }
    }

    /// Converts the bytes into a `SharedBytes`; bytes not already shared are
    /// copied into a new shared buffer, so they must fit in one.
    pub fn into_shared_bytes(self) -> (res: SharedBytes)
        requires
            self.spec_kind() != Kind::Shared ==> self@.len() + 12 <= 0xFFFF_FFFF,
        ensures
            res@ == self@,
    {
        match self.repr {
            Repr::Shared(s) => s,
            _ => SharedBytes::from_slice(self.as_slice()),
        }
    }

    /// Converts the bytes into a vector. Data that was handed over is given back
    /// without copying where nothing else shares it.
    pub fn into_vec(self) -> (res: Vec<u8>)
        ensures
            res@ == self@,
    {
        match self.repr {
            Repr::External(e) => e.into_vec(),
            _ => crate::slices::slice_to_vec(self.as_slice()),
        }
    }
}

impl ByteData<'static> {
    /// Forces any borrowed slice to be marked as static.
    pub fn statically_borrowed(self) -> (res: Self)
        ensures
            res@ == self@,
            res.spec_is_owned_or_static(),
    {
        match self.repr {
            Repr::Borrowed(s) => ByteData { repr: Repr::Static(s) },
            _ => self,
        }
    }
}

/// Narrows a static slice, keeping its lifetime.
fn slice_static(s: &'static [u8], start: usize, end: usize) -> (res: &'static [u8])
    requires
        start <= end <= s@.len(),
    ensures
        res@ == s@.subrange(start as int, end as int),
{
    &s[start..end]
}

/// Where `needle` first occurs in `rest`, if it occurs.
pub open spec fn first_position(rest: Seq<u8>, needle: Seq<u8>) -> int {
    choose|p: int| first_occurrence(rest, needle, p)
}

/// The parts still to come from splitting `rest` on `needle`: the bytes before
/// each occurrence, then the bytes after the last one. `trailing` says that a
/// separator was just consumed at the very end, so that one empty part is
/// owed; otherwise no bytes means no parts. An empty separator splits nothing.
pub open spec fn split_parts(rest: Seq<u8>, needle: Seq<u8>, trailing: bool) -> Seq<Seq<u8>>
    decreases rest.len(),
{
    if rest.len() == 0 {
        if trailing {
            seq![Seq::<u8>::empty()]
        } else {
            Seq::empty()
        }
    } else if needle.len() == 0 || never_occurs(rest, needle) {
        seq![rest]
    } else {
        let p = first_position(rest, needle);
        if 0 <= p && p + needle.len() <= rest.len() {
            let after = rest.skip(p + needle.len());
            seq![rest.take(p)] + split_parts(after, needle, after.len() == 0)
        } else {
            seq![rest]
        }
    }
}

/// The parts joined back together, with `sep` between each two of them.
pub open spec fn join_with(parts: Seq<Seq<u8>>, sep: Seq<u8>) -> Seq<u8>
    decreases parts.len(),
{
    if parts.len() == 0 {
        Seq::empty()
    } else if parts.len() == 1 {
        parts[0]
    } else {
        parts[0] + sep + join_with(parts.drop_first(), sep)
    }
}

/// The parts of a [`ByteData`] between occurrences of a byte sequence.
pub struct ByteDataSplit<'a, 'b> {
    rest: ByteData<'a>,
    needle: &'b [u8],
    trailing: bool,
}

impl<'a, 'b> ByteDataSplit<'a, 'b> {
    /// The bytes not yet handed out.
    pub closed spec fn spec_rest(&self) -> Seq<u8> {
        self.rest@
    }

    /// The separator.
    pub closed spec fn spec_needle(&self) -> Seq<u8> {
        self.needle@
    }

    /// Whether a separator was consumed at the very end of the data, so that
    /// one empty part is still to come.
    pub closed spec fn spec_trailing(&self) -> bool {
        self.trailing
    }

    /// The next part. Where the separator is found, the part before it is
    /// handed out and the separator is dropped; otherwise all that is left is
    /// handed out. A separator at the very end is followed by one empty part.
    /// An empty separator splits nothing: all the data is one part.
    pub fn next(&mut self) -> (res: Option<ByteData<'a>>)
        ensures
            final(self).spec_needle() == old(self).spec_needle(),
            old(self).spec_rest().len() == 0 && !old(self).spec_trailing() ==> res is None
                && final(self).spec_rest() == old(self).spec_rest()
                && !final(self).spec_trailing(),
            old(self).spec_rest().len() == 0 && old(self).spec_trailing() ==> {
                &&& res matches Some(p) && p@ == Seq::<u8>::empty()
                &&& final(self).spec_rest() == Seq::<u8>::empty()
                &&& !final(self).spec_trailing()
            },
            old(self).spec_rest().len() > 0 && (old(self).spec_needle().len() == 0 || never_occurs(
                old(self).spec_rest(),
                old(self).spec_needle(),
            )) ==> {
                &&& res matches Some(p) && p@ == old(self).spec_rest()
                &&& final(self).spec_rest() == Seq::<u8>::empty()
                &&& !final(self).spec_trailing()
            },
            forall|p: int|
                old(self).spec_rest().len() > 0 && old(self).spec_needle().len() > 0
                    && first_occurrence(old(self).spec_rest(), old(self).spec_needle(), p) ==> {
                    &&& res matches Some(part) && part@ == old(self).spec_rest().take(p)
                    &&& final(self).spec_rest() == old(self).spec_rest().skip(
                        p + old(self).spec_needle().len(),
                    )
                    &&& final(self).spec_trailing() == (final(self).spec_rest().len() == 0)
                },
            res is Some ==> final(self).spec_rest().len() < old(self).spec_rest().len() || (
            old(self).spec_trailing() && !final(self).spec_trailing()),
            split_parts(old(self).spec_rest(), old(self).spec_needle(), old(self).spec_trailing())
                == match res {
                Some(p) => seq![p@] + split_parts(
                    final(self).spec_rest(),
                    final(self).spec_needle(),
                    final(self).spec_trailing(),
                ),
                None => Seq::<Seq<u8>>::empty(),
            },
    {
        if self.rest.is_empty() {
            if self.trailing {
                self.trailing = false;
                return Some(ByteData::empty());
            }
            return None;
        }
        let found = if self.needle.len() == 0 {
            None
        } else {
            crate::slices::const_split_once_bytes(self.rest.as_slice(), self.needle)
        };
        let aa = match found {
            Some((aa, _)) => aa.len(),
            None => {
                let mut out = ByteData::empty();
                core::mem::swap(&mut self.rest, &mut out);
                self.trailing = false;
                return Some(out);
            },
        };
        proof {
            crate::slices::lemma_first_occurrence_unique(self.rest@, self.needle@, aa as int);
        }
        let ghost before = self.rest@;
        proof {
            assert(first_occurrence(before, self.needle@, first_position(before, self.needle@)));
            assert(first_position(before, self.needle@) == aa);
        }
        let part = self.rest.take_bytes(aa);
        let _sep = self.rest.take_bytes(self.needle.len());
        proof {
            assert(self.rest@ =~= before.skip(aa + self.needle@.len()));
        }
        self.trailing = self.rest.is_empty();
        Some(part)
    }

    /// Bounds on the number of parts still to come.
    pub fn size_hint(&self) -> (res: (usize, Option<usize>))
        ensures
            res == if self.spec_rest().len() == 0 {
                if self.spec_trailing() {
                    (1usize, Some(1usize))
                } else {
                    (0usize, Some(0usize))
                }
            } else if self.spec_rest().len() < self.spec_needle().len() {
                (1usize, Some(1usize))
            } else if self.spec_rest().len() < self.spec_needle().len() * 2 {
                (1usize, Some(2usize))
            } else {
                (1usize, None)
            },
    {
        let n = self.rest.len();
        let m = self.needle.len();
        if n == 0 {
            if self.trailing {
                (1, Some(1))
            } else {
                (0, Some(0))
            }
        } else if n < m {
            (1, Some(1))
        } else if n - m < m {
            (1, Some(2))
        } else {
            (1, None)
        }
    }
}

impl<'a> Clone for ByteData<'a> {
    fn clone(&self) -> (res: Self)
        ensures
            res@ == self@,
            res.spec_kind() == self.spec_kind(),
            self.spec_is_owned_or_static() ==> res.spec_is_owned_or_static(),
    {
        match &self.repr {
            Repr::Chunk(c) => ByteData { repr: Repr::Chunk(*c) },
            Repr::Borrowed(s) => ByteData { repr: Repr::Borrowed(s) },
            Repr::Static(s) => ByteData { repr: Repr::Static(s) },
            Repr::Shared(s) => ByteData { repr: Repr::Shared(s.clone()) },
            Repr::External(e) => ByteData { repr: Repr::External(e.clone()) },
        }
    }
}

impl<'a> PartialEq for ByteData<'a> {
    fn eq(&self, other: &Self) -> (res: bool) {
        self.eq_const(other)
    }
}

impl<'a> vstd::std_specs::cmp::PartialEqSpecImpl for ByteData<'a> {
    open spec fn obeys_eq_spec() -> bool {
        true
    }

    open spec fn eq_spec(&self, other: &Self) -> bool {
        self@ == other@
    }
}

impl<'a> Eq for ByteData<'a> {

}

impl<'a> Default for ByteData<'a> {
    fn default() -> (res: Self)
        ensures
            res@ == Seq::<u8>::empty(),
    {
        Self::empty()
    }
}

impl<'a> From<&'a [u8]> for ByteData<'a> {
    fn from(dat: &'a [u8]) -> (res: Self)
        ensures
            res@ == dat@,
    {
        Self::from_borrowed(dat)
    }
}

impl<'a> vstd::std_specs::convert::FromSpecImpl<&'a [u8]> for ByteData<'a> {
    open spec fn obeys_from_spec() -> bool {
        false
    }

    open spec fn from_spec(v: &'a [u8]) -> Self {
        vstd::pervasive::arbitrary()
    }
}

impl<'a> From<SharedBytes> for ByteData<'a> {
    fn from(dat: SharedBytes) -> (res: Self)
        ensures
            res@ == dat@,
    {
        if dat.len() <= ByteChunk::LEN {
            Self::from_chunk_slice(dat.as_slice())
        } else {
            Self::from_shared(dat)
        }
    }
}

impl<'a> vstd::std_specs::convert::FromSpecImpl<SharedBytes> for ByteData<'a> {
    open spec fn obeys_from_spec() -> bool {
        false
    }

    open spec fn from_spec(v: SharedBytes) -> Self {
        vstd::pervasive::arbitrary()
    }
}

impl<'a> From<Vec<u8>> for ByteData<'a> {
    fn from(dat: Vec<u8>) -> (res: Self)
        ensures
            res@ == dat@,
    {
        let len = dat.len();
        if len <= ByteChunk::LEN {
            Self::from_chunk_slice(dat.as_slice())
        } else if len < 32 {
            Self::from_shared(SharedBytes::from_vec(dat))
        } else {
            Self::from_external(dat)
        }
    }
}

impl<'a> vstd::std_specs::convert::FromSpecImpl<Vec<u8>> for ByteData<'a> {
    open spec fn obeys_from_spec() -> bool {
        false
    }

    open spec fn from_spec(v: Vec<u8>) -> Self {
        vstd::pervasive::arbitrary()
    }
}

impl<'a> From<ByteData<'a>> for Vec<u8> {
    fn from(dat: ByteData<'a>) -> (res: Self)
        ensures
            res@ == dat@,
    {
        dat.into_vec()
    }
}

impl<'a> vstd::std_specs::convert::FromSpecImpl<ByteData<'a>> for Vec<u8> {
    open spec fn obeys_from_spec() -> bool {
        false
    }

    open spec fn from_spec(v: ByteData<'a>) -> Self {
        vstd::pervasive::arbitrary()
    }
}

} // verus!
