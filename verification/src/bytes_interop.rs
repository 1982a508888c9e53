//! Conversions between the byte containers of this crate and `bytes::Bytes`,
//! and the reading and writing operations that a `bytes` buffer offers.
use vstd::prelude::*;

use crate::bytedata::{ByteData, Kind};
use crate::queue::ByteQueue;
use crate::shared_bytes::SharedBytes;
use crate::shared_bytes_builder::SharedBytesBuilder;

verus! {

#[verifier::external_type_specification]
#[verifier::external_body]
pub struct ExBytes(bytes::Bytes);

/// The bytes that a `bytes::Bytes` holds.
pub uninterp spec fn bytes_content(b: bytes::Bytes) -> Seq<u8>;

/// An empty `Bytes` (`Bytes::new`).
#[verifier::external_body]
fn bytes_new() -> (res: bytes::Bytes)
    ensures
        bytes_content(res) == Seq::<u8>::empty(),
{
    bytes::Bytes::new()
}

/// A `Bytes` over static data, without copying (`Bytes::from_static`).
#[verifier::external_body]
fn bytes_from_static(s: &'static [u8]) -> (res: bytes::Bytes)
    ensures
        bytes_content(res) == s@,
{
    bytes::Bytes::from_static(s)
}

/// A `Bytes` holding a copy of a slice (`Bytes::copy_from_slice`).
#[verifier::external_body]
fn bytes_copy_from_slice(s: &[u8]) -> (res: bytes::Bytes)
    ensures
        bytes_content(res) == s@,
{
    bytes::Bytes::copy_from_slice(s)
}

/// A `Bytes` taking over a vector (`From<Vec<u8>> for Bytes`).
#[verifier::external_body]
fn bytes_from_vec(v: Vec<u8>) -> (res: bytes::Bytes)
    ensures
        bytes_content(res) == v@,
{
    bytes::Bytes::from(v)
}

/// The bytes of a `Bytes` as a vector (`From<Bytes> for Vec<u8>`), reusing its
/// buffer where nothing else shares it.
#[verifier::external_body]
fn bytes_into_vec(b: bytes::Bytes) -> (res: Vec<u8>)
    ensures
        res@ == bytes_content(b),
{
    Vec::from(b)
}

impl<'a> ByteData<'a> {
    /// Converts the data into a `Bytes`: static data is shared, data handed
    /// over without copying is handed on where nothing else shares it, anything
    /// else is copied.
    pub fn into_bytes(self) -> (res: bytes::Bytes)
        ensures
            bytes_content(res) == self@,
    {
        if self.is_empty() {
            proof {
                assert(self@ =~= Seq::<u8>::empty());
            }
            return bytes_new();
        }
        match self.as_static() {
            Some(s) => bytes_from_static(s),
            None => {
                if self.kind() == Kind::External {
                    bytes_from_vec(self.into_vec())
                } else {
                    bytes_copy_from_slice(self.as_slice())
                }
            },
        }
    }

    /// Takes the bytes of a `Bytes`, reusing its buffer where nothing else shares it.
    pub fn from_bytes(dat: bytes::Bytes) -> (res: Self)
        ensures
            res@ == bytes_content(dat),
    {
        ByteData::from_owned(bytes_into_vec(dat))
    }

    /// The number of bytes left to read.
    pub fn remaining(&self) -> (res: usize)
        ensures
            res == self@.len(),
    {
        self.len()
    }

    /// The bytes left to read, in one piece.
    pub fn chunk(&self) -> (res: &[u8])
        ensures
            res@ == self@,
    {
        self.as_slice()
    }

    /// Drops `cnt` bytes, which must be available, from the front.
    pub fn advance(&mut self, cnt: usize)
        requires
            cnt <= old(self)@.len(),
        ensures
            final(self)@ == old(self)@.skip(cnt as int),
    {
        let len = self.len();
        self.make_sliced(cnt..len);
        assert(self@ =~= old(self)@.skip(cnt as int));
    }

    /// Whether any byte is left to read.
    pub fn has_remaining(&self) -> (res: bool)
        ensures
            res == (self@.len() > 0),
    {
        !self.is_empty()
    }

    /// Takes the first `len` bytes, which must be available, as a `Bytes`.
    pub fn copy_to_bytes(&mut self, len: usize) -> (res: bytes::Bytes)
        requires
            len <= old(self)@.len(),
        ensures
            bytes_content(res) == old(self)@.take(len as int),
            final(self)@ == old(self)@.skip(len as int),
    {
        let currlen = self.len();
        if len == 0 {
            assert(self@.take(0) =~= Seq::<u8>::empty());
            assert(self@.skip(0) =~= self@);
            return bytes_new();
        }
        if len == currlen {
            let mut taken = ByteData::empty();
            core::mem::swap(self, &mut taken);
            assert(taken@.take(len as int) =~= taken@);
            assert(taken@.skip(len as int) =~= Seq::<u8>::empty());
            return taken.into_bytes();
        }
        let ret = self.sliced(0..len).into_bytes();
        self.make_sliced(len..currlen);
        proof {
            assert(old(self)@.subrange(0, len as int) =~= old(self)@.take(len as int));
            assert(self@ =~= old(self)@.skip(len as int));
        }
        ret
    }
}

impl<'a> From<ByteData<'a>> for bytes::Bytes {
    fn from(dat: ByteData<'a>) -> (res: Self)
        ensures
            bytes_content(res) == dat@,
    {
        dat.into_bytes()
    }
}

impl<'a> vstd::std_specs::convert::FromSpecImpl<ByteData<'a>> for bytes::Bytes {
    open spec fn obeys_from_spec() -> bool {
        false
    }

    open spec fn from_spec(v: ByteData<'a>) -> Self {
        vstd::pervasive::arbitrary()
    }
}

impl<'a> From<bytes::Bytes> for ByteData<'a> {
    fn from(dat: bytes::Bytes) -> (res: Self)
        ensures
            res@ == bytes_content(dat),
    {
        ByteData::from_bytes(dat)
    }
}

impl<'a> vstd::std_specs::convert::FromSpecImpl<bytes::Bytes> for ByteData<'a> {
    open spec fn obeys_from_spec() -> bool {
        false
    }

    open spec fn from_spec(v: bytes::Bytes) -> Self {
        vstd::pervasive::arbitrary()
    }
}

impl SharedBytes {
    /// A copy of the bytes as a `Bytes`.
    pub fn to_bytes(&self) -> (res: bytes::Bytes)
        ensures
            bytes_content(res) == self@,
    {
        bytes_copy_from_slice(self.as_slice())
    }

    /// Takes the bytes of a `Bytes`, which must fit in a shared buffer.
    pub fn from_bytes(dat: bytes::Bytes) -> (res: Self)
        requires
            bytes_content(dat).len() + 12 <= 0xFFFF_FFFF,
        ensures
            res@ == bytes_content(dat),
    {
        SharedBytes::from_vec(bytes_into_vec(dat))
    }

    /// Takes the bytes of a `Bytes` where they fit in a shared buffer, and
    /// hands the same bytes back otherwise.
    pub fn try_from_bytes(dat: bytes::Bytes) -> (res: Result<Self, bytes::Bytes>)
        ensures
            res is Ok <==> bytes_content(dat).len() + 12 <= 0xFFFF_FFFF,
            res matches Ok(s) ==> s@ == bytes_content(dat),
            res matches Err(e) ==> bytes_content(e) == bytes_content(dat),
    {
        let v = bytes_into_vec(dat);
        if v.len() <= 0xFFFF_FFFF - 12 {
            Ok(SharedBytes::from_vec(v))
        } else {
            Err(bytes_from_vec(v))
        }
    }
}

impl SharedBytesBuilder {
    /// How many more bytes fit before the buffer reaches `0xFFFF_FFFF` bytes with its header.
    pub fn remaining_mut(&self) -> (res: usize)
        ensures
            res == 0xFFFF_FFFF - self.spec_end(),
    {
        self.lemma_well_formed();
        let off = crate::shared_bytes::compute_start_offset(self.alignment()) as usize;
        let end = self.len() + off;
        0xFFFF_FFFF - end
    }

    /// Appends the bytes of a slice, which must fit.
    pub fn put_slice(&mut self, src: &[u8])
        requires
            old(self).spec_end() + src@.len() <= 0xFFFF_FFFF,
        ensures
            final(self)@ == old(self)@ + src@,
    {
        self.extend_from_slice(src);
    }

    /// Appends `cnt` copies of `val`, which must fit.
    pub fn put_bytes(&mut self, val: u8, cnt: usize)
        requires
            old(self).spec_end() + cnt <= 0xFFFF_FFFF,
        ensures
            final(self)@ == old(self)@ + Seq::new(cnt as nat, |i: int| val),
    {
        self.lemma_well_formed();
        self.reserve(cnt);
        self.lemma_well_formed();
        let mut v: Vec<u8> = Vec::new();
        let mut i: usize = 0;
        while i < cnt
            invariant
                i <= cnt,
                v@ == Seq::new(i as nat, |k: int| val),
            decreases cnt - i,
        {
            v.push(val);
            i += 1;
            assert(v@ =~= Seq::new(i as nat, |k: int| val));
        }
        self.extend_from_slice(v.as_slice());
    }
}

impl<'a> ByteQueue<'a> {
    /// Joins the queue into a `Bytes`.
    pub fn into_bytes_joined(self) -> (res: bytes::Bytes)
        ensures
            bytes_content(res) == self@,
    {
        let mut q = self;
        if q.chunk_len() == 1 {
            let ghost before = q@;
            match q.pop_front() {
                Some(chunk) => {
                    q.check_well_formed();
                    proof {
                        assert(q.spec_chunks().len() == 0);
                        crate::queue::byte_queue::lemma_chunk_start_end(q.spec_chunks());
                        assert(q@ =~= Seq::<u8>::empty());
                        assert(before =~= chunk@);
                    }
                    return chunk.into_bytes();
                },
                None => {},
            }
        }
        let mut v: Vec<u8> = Vec::new();
        q.read_to_end(&mut v);
        bytes_from_vec(v)
    }

    /// Takes the bytes of a `Bytes` as a queue of one chunk.
    pub fn from_bytes(dat: bytes::Bytes) -> (res: Self)
        ensures
            res@ == bytes_content(dat),
    {
        ByteQueue::with_item(ByteData::from_bytes(dat))
    }

    /// The number of bytes left to read.
    pub fn remaining(&self) -> (res: usize)
        ensures
            res == self@.len(),
    {
        self.len()
    }

    /// The bytes of the first chunk, or none.
    pub fn chunk(&self) -> (res: &[u8])
        ensures
            res@.is_prefix_of(self@),
            self@.len() > 0 ==> res@.len() > 0,
    {
        self.fill_buf()
    }

    /// Drops `cnt` bytes, which must be available, from the front.
    pub fn advance(&mut self, cnt: usize)
        requires
            cnt <= old(self)@.len(),
        ensures
            final(self)@ == old(self)@.skip(cnt as int),
    {
        self.consume(cnt);
    }

    /// Whether any byte is left to read.
    pub fn has_remaining(&self) -> (res: bool)
        ensures
            res == (self@.len() > 0),
    {
        !self.is_empty()
    }

    /// Takes the first `len` bytes, which must be available, as a `Bytes`.
    pub fn copy_to_bytes(&mut self, len: usize) -> (res: bytes::Bytes)
        requires
            len <= old(self)@.len(),
        ensures
            bytes_content(res) == old(self)@.take(len as int),
            final(self)@ == old(self)@.skip(len as int),
    {
        let rest = self.split_off(len);
        let mut front = rest;
        core::mem::swap(self, &mut front);
        front.into_bytes_joined()
    }
}

} // verus!
