//! A growable UTF-8 buffer that is frozen into a [`StringData`].
use vstd::prelude::*;
use vstd::string::StringSliceAdditionalSpecFns;
use vstd::utf8::*;

use crate::shared_bytes::{start_offset, SharedBytes};
use crate::shared_bytes_builder::{grown_len, max_int, saturated_sum, SharedBytesBuilder};
use crate::stringdata::StringData;

verus! {

/// The UTF-8 bytes of a character.
#[verifier::external_body]
pub(crate) fn char_encode_utf8(ch: char) -> (res: Vec<u8>)
    ensures
        res@ == encode_utf8(seq![ch]),
{
    let mut buf = [0u8; 4];
    ch.encode_utf8(&mut buf).as_bytes().to_vec()
}

/// A builder for a shared string.
/// This can be thought of as a `String` that can then be frozen into a `StringData`.
pub struct SharedStrBuilder {
    inner: SharedBytesBuilder,
}

impl View for SharedStrBuilder {
    type V = Seq<u8>;

    closed spec fn view(&self) -> Seq<u8> {
        self.inner@
    }
}

impl SharedStrBuilder {
    #[verifier::type_invariant]
    spec fn inv(self) -> bool {
        valid_utf8(self.inner@)
    }

    /// The alignment of the buffer.
    pub closed spec fn spec_align(&self) -> int {
        self.inner.spec_align()
    }

    /// The number of bytes the buffer holds without growing.
    pub closed spec fn spec_capacity(&self) -> int {
        self.inner.spec_capacity()
    }

    /// The offset of the first unused byte, header included.
    pub closed spec fn spec_end(&self) -> int {
        self.inner.spec_end()
    }

    /// The total size reserved, header included.
    pub closed spec fn spec_reserved(&self) -> int {
        self.inner.spec_reserved()
    }

    /// Creates a new shared string builder.
    pub fn new() -> (res: Self)
        ensures
            res@ == Seq::<u8>::empty(),
            res.spec_align() == 4,
            res.spec_capacity() == 0,
    {
        let inner = SharedBytesBuilder::new();
        proof {
            assert(valid_utf8(inner@));
        }
        Self { inner }
    }

    /// Creates a new `SharedStrBuilder` with at least the specified capacity.
    /// The capacity must leave room for the header within `0xFFFF_FFFF` bytes.
    pub fn with_capacity(capacity: usize) -> (res: Self)
        requires
            capacity + 12 <= 0xFFFF_FFFF,
        ensures
            res@ == Seq::<u8>::empty(),
            res.spec_align() == 4,
            res.spec_capacity() == capacity,
    {
        let inner = SharedBytesBuilder::with_capacity(capacity);
        proof {
            assert(valid_utf8(inner@));
        }
        Self { inner }
    }

    /// Appends the given character to the shared string.
    pub fn push(&mut self, ch: char)
        requires
            old(self)@.len() + encode_utf8(seq![ch]).len() + start_offset(old(self).spec_align())
                <= 0xFFFF_FFFF,
        ensures
            final(self)@ == old(self)@ + encode_utf8(seq![ch]),
            final(self).spec_align() == old(self).spec_align(),
    {
        proof {
            use_type_invariant(&*self);
            encode_utf8_valid_utf8(seq![ch]);
        }
        let buf = char_encode_utf8(ch);
        self.append_valid(buf.as_slice());
    }

    /// Appends the given text to the shared string.
    pub fn push_str(&mut self, str_data: &str)
        requires
            old(self)@.len() + str_data.spec_bytes().len() + start_offset(old(self).spec_align())
                <= 0xFFFF_FFFF,
        ensures
            final(self)@ == old(self)@ + str_data.spec_bytes(),
            final(self).spec_align() == old(self).spec_align(),
    {
        proof {
            encode_utf8_valid_utf8(str_data@);
        }
        self.append_valid(str_data.as_bytes());
    }

    /// Appends bytes that are valid UTF-8.
    fn append_valid(&mut self, bytes: &[u8])
        requires
            valid_utf8(bytes@),
            old(self)@.len() + bytes@.len() + start_offset(old(self).spec_align()) <= 0xFFFF_FFFF,
        ensures
            final(self)@ == old(self)@ + bytes@,
            final(self).spec_align() == old(self).spec_align(),
    {
        proof {
            use_type_invariant(&*self);
        }
        self.inner.lemma_well_formed();
        let mut taken = SharedStrBuilder::new();
        core::mem::swap(self, &mut taken);
        let ghost before = taken.inner@;
        let mut inner = taken.inner;
        inner.extend_from_slice(bytes);
        proof {
            crate::char_indices::lemma_decode_concat(before, bytes@);
        }
        *self = SharedStrBuilder { inner };
    }

    /// Reserves capacity for at least `additional` more bytes to be written to the buffer.
    pub fn reserve(&mut self, additional: usize)
        ensures
            final(self)@ == old(self)@,
            final(self).spec_align() == old(self).spec_align(),
            final(self).spec_end() == old(self).spec_end(),
            (old(self).spec_end() == 0xFFFF_FFFF || additional == 0) ==> final(self).spec_reserved()
                == old(self).spec_reserved(),
            (old(self).spec_end() < 0xFFFF_FFFF && additional > 0) ==> final(self).spec_reserved()
                == max_int(
                grown_len(saturated_sum(old(self).spec_end(), additional as int), true),
                old(self).spec_reserved(),
            ),
            old(self).spec_end() + additional <= 0xFFFF_FFFF
                ==> final(self).spec_capacity() >= old(self)@.len() + additional,
    {
        proof {
            use_type_invariant(&*self);
        }
        self.inner.lemma_well_formed();
        let mut taken = SharedStrBuilder::new();
        core::mem::swap(self, &mut taken);
        let mut inner = taken.inner;
        inner.reserve(additional);
        inner.lemma_well_formed();
        *self = SharedStrBuilder { inner };
    }

    /// Clear the buffer.
    pub fn clear(&mut self)
        ensures
            final(self)@ == Seq::<u8>::empty(),
            final(self).spec_align() == old(self).spec_align(),
    {
        let mut taken = SharedStrBuilder::new();
        core::mem::swap(self, &mut taken);
        let mut inner = taken.inner;
        inner.clear();
        proof {
            assert(valid_utf8(inner@));
        }
        *self = SharedStrBuilder { inner };
    }

    /// Truncates the buffer to the specified length, which must not fall in the
    /// middle of a character. Nothing happens if the buffer is no longer than `len`.
    pub fn truncate(&mut self, len: usize)
        requires
            len < old(self)@.len() ==> !is_continuation_byte(old(self)@[len as int]),
        ensures
            final(self)@ == if len < old(self)@.len() {
                old(self)@.take(len as int)
            } else {
                old(self)@
            },
            final(self).spec_align() == old(self).spec_align(),
    {
        proof {
            use_type_invariant(&*self);
        }
        if len < self.len() {
            let mut taken = SharedStrBuilder::new();
            core::mem::swap(self, &mut taken);
            let ghost before = taken.inner@;
            let mut inner = taken.inner;
            inner.truncate(len);
            proof {
                crate::stringdata::lemma_valid_subrange(before, 0, len as int);
                assert(before.take(len as int) =~= before.subrange(0, len as int));
            }
            *self = SharedStrBuilder { inner };
        }
    }

    /// Returns `true` if the buffer is empty.
    pub fn is_empty(&self) -> (res: bool)
        ensures
            res == (self@.len() == 0),
    {
        self.inner.is_empty()
    }

    /// Returns the number of bytes currently written to in the buffer.
    pub fn len(&self) -> (res: usize)
        ensures
            res == self@.len(),
    {
        self.inner.len()
    }

    /// Returns total the number of bytes currently available in the buffer.
    pub fn capacity(&self) -> (res: usize)
        ensures
            res == self.spec_capacity(),
    {
        self.inner.capacity()
    }

    /// Gets the bytes currently in the shared string.
    pub fn as_bytes(&self) -> (res: &[u8])
        ensures
            res@ == self@,
    {
        self.inner.as_slice()
    }

    /// Gets the str currently in the shared string.
    pub fn as_str(&self) -> (res: &str)
        ensures
            res.spec_bytes() == self@,
    {
        proof {
            use_type_invariant(self);
        }
        match crate::stringdata::str_from_utf8(self.inner.as_slice()) {
            Ok(s) => s,
            Err(_) => {
                proof {
                    assert(false);
                }
                ""
            },
        }
    }

    /// Builds the shared string as bytes.
    pub fn build(self) -> (res: SharedBytes)
        ensures
            res@ == self@,
    {
        self.inner.build()
    }

    /// Builds the shared string.
    pub fn build_str<'a>(self) -> (res: StringData<'a>)
        ensures
            res@ == self@,
    {
        proof {
            use_type_invariant(&self);
        }
        let SharedStrBuilder { inner } = self;
        let bytes = crate::bytedata::ByteData::from(inner.build());
        StringData::from_bytedata_unchecked(bytes)
    }

    /// Converts the shared string builder into a shared bytes builder.
    pub fn into_shared_bytes_builder(self) -> (res: SharedBytesBuilder)
        ensures
            res@ == self@,
            res.spec_align() == self.spec_align(),
    {
        let SharedStrBuilder { inner } = self;
        inner
    }
}

impl Default for SharedStrBuilder {
    fn default() -> (res: Self)
        ensures
            res@ == Seq::<u8>::empty(),
    {
        Self::new()
    }
}

} // verus!
