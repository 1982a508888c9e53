//! Byte data owned by a buffer that was handed over by its owner.
use std::sync::Arc;
use vstd::prelude::*;
use vstd::string::StringSliceAdditionalSpecFns;

use crate::shared_bytes::{arc_clone, arc_try_unwrap};

verus! {

/// The bytes of a boxed slice as a vector (`<[u8]>::into_vec`), which std
/// documents as done without copying.
#[verifier::external_body]
fn boxed_slice_into_vec(b: Box<[u8]>) -> (res: Vec<u8>)
    ensures
        res@ == b@,
{
    b.into_vec()
}

/// Byte data owned by another type, which a `ByteData` can take over. Vectors,
/// boxed slices, strings and boxed strings give up their buffer as it is;
/// shared slices and shared strings (`Arc<[u8]>`, `Arc<str>`) are copied into a
/// new vector.
pub trait ExternalBytes: Sized {
    /// The bytes held.
    spec fn spec_external_bytes(&self) -> Seq<u8>;

    /// Gives the bytes up as a vector.
    fn into_byte_vec(self) -> (res: Vec<u8>)
        ensures
            res@ == self.spec_external_bytes(),
    ;
}

impl ExternalBytes for Vec<u8> {
    open spec fn spec_external_bytes(&self) -> Seq<u8> {
        self@
    }

    fn into_byte_vec(self) -> (res: Vec<u8>) {
        self
    }
}

impl ExternalBytes for Box<[u8]> {
    open spec fn spec_external_bytes(&self) -> Seq<u8> {
        self@
    }

    fn into_byte_vec(self) -> (res: Vec<u8>) {
        boxed_slice_into_vec(self)
    }
}

impl ExternalBytes for String {
    open spec fn spec_external_bytes(&self) -> Seq<u8> {
        crate::stringdata::string_bytes(self)
    }

    fn into_byte_vec(self) -> (res: Vec<u8>) {
        crate::stringdata::string_into_bytes(self)
    }
}

/// The text of a boxed `str` as a `String` (`str::into_string`), which std
/// documents as done without copying or allocating.
#[verifier::external_body]
fn boxed_str_into_string(b: Box<str>) -> (res: String)
    ensures
        crate::stringdata::string_bytes(&res) == (*b).spec_bytes(),
{
    b.into_string()
}

impl ExternalBytes for Box<str> {
    open spec fn spec_external_bytes(&self) -> Seq<u8> {
        (**self).spec_bytes()
    }

    fn into_byte_vec(self) -> (res: Vec<u8>) {
        crate::stringdata::string_into_bytes(boxed_str_into_string(self))
    }
}

/// The bytes of a shared slice, copied into a vector (`<[u8]>::to_vec`).
#[verifier::external_body]
fn arc_slice_to_vec(a: Arc<[u8]>) -> (res: Vec<u8>)
    ensures
        res@ == (*a)@,
{
    a.to_vec()
}

impl ExternalBytes for Arc<[u8]> {
    open spec fn spec_external_bytes(&self) -> Seq<u8> {
        (**self)@
    }

    fn into_byte_vec(self) -> (res: Vec<u8>) {
        arc_slice_to_vec(self)
    }
}

/// The text of a shared `str`, copied into a `String` (`String::from`).
#[verifier::external_body]
fn arc_str_to_string(a: Arc<str>) -> (res: String)
    ensures
        crate::stringdata::string_bytes(&res) == (*a).spec_bytes(),
{
    String::from(&*a)
}

impl ExternalBytes for Arc<str> {
    open spec fn spec_external_bytes(&self) -> Seq<u8> {
        (**self).spec_bytes()
    }

    fn into_byte_vec(self) -> (res: Vec<u8>) {
        crate::stringdata::string_into_bytes(arc_str_to_string(self))
    }
}

/// A view on a range of a buffer that was handed over by its owner.
pub struct ExtBytes {
    /// The buffer, shared between all views on it.
    dat: Arc<Vec<u8>>,
    /// Where the view starts in the buffer.
    off: usize,
    /// The length of the view.
    len: usize,
}

impl View for ExtBytes {
    type V = Seq<u8>;

    closed spec fn view(&self) -> Seq<u8> {
        self.dat@.subrange(self.off as int, self.off + self.len)
    }
}

impl ExtBytes {
    #[verifier::type_invariant]
    spec fn inv(self) -> bool {
        &&& self.off + self.len <= self.dat@.len()
        &&& self.dat@.len() <= usize::MAX
    }

    /// Takes a buffer over without copying it.
    pub fn create(dat: Vec<u8>) -> (res: Self)
        ensures
            res@ == dat@,
    {
        let len = dat.len();
        let res = ExtBytes { dat: Arc::new(dat), off: 0, len };
        assert(res@ =~= dat@);
        res
    }

    /// Takes a string's bytes over without copying them.
    pub fn create_from_string(dat: String) -> (res: Self)
        ensures
            res@ == crate::stringdata::string_bytes(&dat),
    {
        Self::create(crate::stringdata::string_into_bytes(dat))
    }

    /// The bytes of the view.
    pub fn as_slice(&self) -> (res: &[u8])
        ensures
            res@ == self@,
    {
        proof {
            use_type_invariant(self);
        }
        let s = self.dat.as_slice();
        &s[self.off..self.off + self.len]
    }

    /// The number of bytes in the view.
    pub fn len(&self) -> (res: usize)
        ensures
            res == self@.len(),
    {
        proof {
            use_type_invariant(self);
        }
        self.len
    }

    /// Narrows the view to `range`.
    pub fn make_sliced_range(&mut self, range: core::ops::Range<usize>)
        requires
            range.start <= range.end <= old(self)@.len(),
        ensures
            final(self)@ == old(self)@.subrange(range.start as int, range.end as int),
    {
        proof {
            use_type_invariant(&*self);
        }
        let ghost before = self@;
        let new_off = self.off + range.start;
        let new_len = range.end - range.start;
        let dat = arc_clone(&self.dat);
        *self = ExtBytes { dat, off: new_off, len: new_len };
        assert(self@ =~= before.subrange(range.start as int, range.end as int));
    }

    /// A new view on the `range` of this one; a short one is copied inline.
    pub fn sliced_range<'s>(&self, range: core::ops::Range<usize>) -> (res: crate::ByteData<'s>)
        requires
            range.start <= range.end <= self@.len(),
        ensures
            res@ == self@.subrange(range.start as int, range.end as int),
            res.spec_is_owned_or_static(),
    {
        proof {
            use_type_invariant(self);
        }
        let new_len = range.end - range.start;
        if new_len <= crate::ByteChunk::LEN {
            let s = self.as_slice();
            return crate::ByteData::from_chunk_slice(&s[range.start..range.end]);
        }
        let ret = ExtBytes { dat: arc_clone(&self.dat), off: self.off + range.start, len: new_len };
        assert(ret@ =~= self@.subrange(range.start as int, range.end as int));
        crate::ByteData::from_ext(ret)
    }

    /// Gives back the viewed bytes as a vector. Where no other view shares the
    /// buffer it is reused without copying.
    pub fn into_vec(self) -> (res: Vec<u8>)
        ensures
            res@ == self@,
    {
        proof {
            use_type_invariant(&self);
        }
        let ExtBytes { dat, off, len } = self;
        match arc_try_unwrap(dat) {
            Ok(v) => crate::slices::vec_keep_range(v, off, len),
            Err(a) => {
                let s = a.as_slice();
                crate::slices::slice_to_vec(&s[off..off + len])
            },
        }
    }
}

impl Clone for ExtBytes {
    fn clone(&self) -> (res: Self)
        ensures
            res@ == self@,
    {
        proof {
            use_type_invariant(self);
        }
        ExtBytes { dat: arc_clone(&self.dat), off: self.off, len: self.len }
    }
}

} // verus!
