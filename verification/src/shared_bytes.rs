//! A slice of a reference-counted byte buffer.
use std::sync::Arc;
use vstd::prelude::*;

use crate::shared_bytes_builder::SharedBytesBuilder;

verus! {

/// The size of the bookkeeping header that precedes the data of a shared buffer.
pub const META_SIZE: usize = 12;

/// The smallest alignment of a shared buffer.
pub const META_ALIGN: usize = 4;

/// Where the data starts in a shared buffer with the given alignment:
/// right after the header, rounded up to the alignment.
pub open spec fn start_offset(align: int) -> int {
    if align >= 12 {
        align
    } else if 12int % align == 0 {
        12
    } else {
        12 + (align - 12int % align)
    }
}

/// Computes where the data starts in a shared buffer with the given alignment.
pub fn compute_start_offset(align: usize) -> (res: u32)
    requires
        0 < align <= 0xFFFF_FFFF,
    ensures
        res == start_offset(align as int),
{
    if align >= META_SIZE {
        align as u32
    } else {
        let diff = META_SIZE % align;
        if diff == 0 {
            META_SIZE as u32
        } else {
            (META_SIZE + (align - diff)) as u32
        }
    }
}

/// Returns a new handle on the same buffer (`Arc::clone`).
#[verifier::external_body]
pub(crate) fn arc_clone(a: &Arc<Vec<u8>>) -> (res: Arc<Vec<u8>>)
    ensures
        res@ == a@,
{
    Arc::clone(a)
}

/// Takes the buffer out of its handle when no other handle shares it;
/// otherwise hands the handle back (`Arc::try_unwrap`).
#[verifier::external_body]
pub(crate) fn arc_try_unwrap(a: Arc<Vec<u8>>) -> (res: Result<Vec<u8>, Arc<Vec<u8>>>)
    ensures
        match res {
            Ok(v) => v@ == a@,
            Err(e) => e@ == a@,
        },
{
    Arc::try_unwrap(a)
}

/// The number of strong handles on the buffer (`Arc::strong_count`).
/// It depends on the other handles alive at the time of the call, so nothing is
/// stated of it.
#[verifier::external_body]
fn arc_strong_count(a: &Arc<Vec<u8>>) -> (res: usize) {
    Arc::strong_count(a)
}

/// A slice of a reference-counted byte buffer.
pub struct SharedBytes {
    /// The shared buffer, absent for the empty value.
    pub(crate) dat: Option<Arc<Vec<u8>>>,
    /// Where the slice starts in the buffer.
    pub(crate) off: u32,
    /// The length of the slice.
    pub(crate) len: u32,
}

impl View for SharedBytes {
    type V = Seq<u8>;

    closed spec fn view(&self) -> Seq<u8> {
        match self.dat {
            Some(buf) => buf@.subrange(self.off as int, self.off + self.len),
            None => Seq::empty(),
        }
    }
}

impl SharedBytes {
    #[verifier::type_invariant]
    spec fn inv(self) -> bool {
        match self.dat {
            Some(buf) => self.off + self.len <= buf@.len() && buf@.len() + 12 <= 0xFFFF_FFFF,
            None => self.off == 0 && self.len == 0,
        }
    }

    /// Whether the value holds a handle on a buffer; the empty value holds none.
    pub closed spec fn has_buffer(&self) -> bool {
        self.dat is Some
    }

    /// Creates an empty `SharedBytes`.
    pub fn empty() -> (res: Self)
        ensures
            res@ == Seq::<u8>::empty(),
            !res.has_buffer(),
    {
        SharedBytes { dat: None, off: 0, len: 0 }
    }

    /// Takes a buffer of at most `0xFFFF_FFFF` bytes into a shared handle, without copying.
    pub fn from_vec(dat: Vec<u8>) -> (res: Self)
        requires
            dat@.len() + 12 <= 0xFFFF_FFFF,
        ensures
            res@ == dat@,
    {
        if dat.len() == 0 {
            return Self::empty();
        }
        let len = dat.len() as u32;
        let res = SharedBytes { dat: Some(Arc::new(dat)), off: 0, len };
        assert(res@ =~= dat@);
        res
    }

    /// Creates a `SharedBytes` from a slice of bytes.
    /// The slice must fit in a shared buffer after its header.
    pub fn from_slice(dat: &[u8]) -> (res: Self)
        requires
            dat@.len() <= 0xFFFF_FFFF - 12,
        ensures
            res@ == dat@,
    {
        proof {
            crate::shared_bytes_builder::lemma_small_pow2s();
        }
        Self::from_slice_aligned(dat, META_ALIGN)
    }

    /// Creates a `SharedBytes` from a slice of bytes and a target alignment.
    /// The alignment must be a power of two, and the slice must fit in a shared
    /// buffer after its header.
    pub fn from_slice_aligned(dat: &[u8], align: usize) -> (res: Self)
        requires
            crate::shared_bytes_builder::is_pow2(align as int),
            align <= 0x8000_0000,
            dat@.len() + start_offset(if align < 4 { 4 } else { align as int }) <= 0xFFFF_FFFF,
        ensures
            res@ == dat@,
    {
        if dat.len() == 0 {
            return Self::empty();
        }
        proof {
            crate::shared_bytes_builder::lemma_start_offset_bounds(
                if align < 4 { 4 } else { align as int },
            );
        }
        let v = crate::slices::slice_to_vec(dat);
        Self::from_vec(v)
    }

    /// Creates a new `SharedBytesBuilder`.
    pub fn builder() -> (res: SharedBytesBuilder)
        ensures
            res@ == Seq::<u8>::empty(),
            res.spec_capacity() == 0,
    {
        SharedBytesBuilder::new()
    }

    /// Returns the number of bytes in the buffer.
    pub fn len(&self) -> (res: usize)
        ensures
            res == self@.len(),
            res <= 0xFFFF_FFFF,
    {
        proof {
            use_type_invariant(self);
        }
        self.len as usize
    }

    /// Returns `true` if the buffer is empty.
    pub fn is_empty(&self) -> (res: bool)
        ensures
            res == (self@.len() == 0),
    {
        proof {
            use_type_invariant(self);
        }
        self.len == 0
    }

    /// Returns `true` if there is only a single owner of the data.
    /// Whether the buffer is shared depends on the other handles alive at the time
    /// of the call; only the empty value is known to be unique.
    pub fn is_unique(&self) -> (res: bool)
        ensures
            !self.has_buffer() ==> res,
    {
        match &self.dat {
            None => true,
            Some(a) => arc_strong_count(a) == 1,
        }
    }

    /// Returns the bytes as a slice.
    pub fn as_slice(&self) -> (res: &[u8])
        ensures
            res@ == self@,
    {
        proof {
            use_type_invariant(self);
        }
        match &self.dat {
            None => &[],
            Some(a) => {
                let s = a.as_slice();
                &s[self.off as usize..(self.off + self.len) as usize]
            },
        }
    }

    /// Check if the underlying byte slice is equal to another.
    pub fn eq_const(&self, other: &Self) -> (res: bool)
        ensures
            res == (self@ == other@),
    {
        crate::slices::const_eq(self.as_slice(), other.as_slice())
    }

    /// Check if the underlying byte slice is equal to another.
    pub fn eq_slice(&self, other: &[u8]) -> (res: bool)
        ensures
            res == (self@ == other@),
    {
        crate::slices::const_eq(self.as_slice(), other)
    }

    /// Check if the ending of a `SharedBytes` matches the given bytes.
    pub fn ends_with(&self, needle: &[u8]) -> (res: bool)
        ensures
            res == needle@.is_suffix_of(self@),
    {
        crate::slices::const_ends_with(self.as_slice(), needle)
    }

    /// Check if the beginning of a `SharedBytes` matches the given bytes.
    pub fn starts_with(&self, needle: &[u8]) -> (res: bool)
        ensures
            res == needle@.is_prefix_of(self@),
    {
        crate::slices::const_starts_with(self.as_slice(), needle)
    }

    /// Returns a new handle on a subslice of the bytes.
    pub fn sliced(&self, offset: usize, len: usize) -> (res: Self)
        requires
            offset + len <= self@.len(),
        ensures
            res@ == self@.subrange(offset as int, offset + len),
    {
        proof {
            use_type_invariant(self);
        }
        if len == 0 {
            let res = Self::empty();
            assert(res@ =~= self@.subrange(offset as int, offset + len));
            return res;
        }
        match &self.dat {
            None => {
                proof {
                    assert(false);
                }
                Self::empty()
            },
            Some(a) => {
                let res = SharedBytes {
                    dat: Some(arc_clone(a)),
                    off: self.off + offset as u32,
                    len: len as u32,
                };
                assert(res@ =~= self@.subrange(offset as int, offset + len));
                res
            },
        }
    }

    /// Returns a new handle on a subslice of the bytes.
    pub fn sliced_range(&self, range: core::ops::Range<usize>) -> (res: Self)
        requires
            range.start <= range.end <= self@.len(),
        ensures
            res@ == self@.subrange(range.start as int, range.end as int),
    {
        self.sliced(range.start, range.end - range.start)
    }

    /// Restrict the region of bytes this `SharedBytes` represents.
    pub fn into_sliced(self, offset: usize, len: usize) -> (res: Self)
        requires
            offset + len <= self@.len(),
        ensures
            res@ == self@.subrange(offset as int, offset + len),
    {
        let mut this = self;
        this.make_sliced(offset, len);
        this
    }

    /// Restrict the region of bytes this `SharedBytes` represents.
    pub fn make_sliced(&mut self, offset: usize, len: usize)
        requires
            offset + len <= old(self)@.len(),
        ensures
            final(self)@ == old(self)@.subrange(offset as int, offset + len),
    {
        proof {
            use_type_invariant(&*self);
        }
        let ghost before = self@;
        let mut taken = SharedBytes::empty();
        core::mem::swap(self, &mut taken);
        let SharedBytes { dat, off, len: _ } = taken;
        match dat {
            None => {
                *self = SharedBytes { dat: None, off: 0, len: 0 };
                assert(self@ =~= before.subrange(offset as int, offset + len));
            },
            Some(a) => {
                *self = SharedBytes { dat: Some(a), off: off + offset as u32, len: len as u32 };
                assert(self@ =~= before.subrange(offset as int, offset + len));
            },
        }
    }

    /// Restrict the region of bytes this `SharedBytes` represents.
    pub fn into_sliced_range(self, range: core::ops::Range<usize>) -> (res: Self)
        requires
            range.start <= range.end <= self@.len(),
        ensures
            res@ == self@.subrange(range.start as int, range.end as int),
    {
        self.into_sliced(range.start, range.end - range.start)
    }

    /// Restrict the region of bytes this `SharedBytes` represents.
    pub fn make_sliced_range(&mut self, range: core::ops::Range<usize>)
        requires
            range.start <= range.end <= old(self)@.len(),
        ensures
            final(self)@ == old(self)@.subrange(range.start as int, range.end as int),
    {
        self.make_sliced(range.start, range.end - range.start)
    }

    /// Returns the byte at `index`.
    pub fn get(&self, index: usize) -> (res: u8)
        requires
            index < self@.len(),
        ensures
            res == self@[index as int],
    {
        let s = self.as_slice();
        s[index]
    }

    /// Turns the bytes into a builder that appends after them.
    /// Where no other handle shares the buffer it is reused without copying.
    pub fn into_builder(self) -> (res: SharedBytesBuilder)
        ensures
            res@ == self@,
            res.spec_align() == META_ALIGN,
    {
        proof {
            use_type_invariant(&self);
            crate::shared_bytes_builder::lemma_small_pow2s();
        }
        let ghost view = self@;
        let SharedBytes { dat, off, len } = self;
        match dat {
            None => SharedBytesBuilder::new(),
            Some(a) => match arc_try_unwrap(a) {
                Ok(v) => {
                    let v = crate::slices::vec_keep_range(v, off as usize, len as usize);
                    SharedBytesBuilder::from_vec(v)
                },
                Err(a) => {
                    let s = a.as_slice();
                    let part = &s[off as usize..(off + len) as usize];
                    let mut b = SharedBytesBuilder::new();
                    b.extend_from_slice(part);
                    b
                },
            },
        }
    }
}

impl Clone for SharedBytes {
    fn clone(&self) -> (res: Self)
        ensures
            res@ == self@,
    {
        proof {
            use_type_invariant(self);
        }
        match &self.dat {
            None => SharedBytes { dat: None, off: 0, len: 0 },
            Some(a) => SharedBytes { dat: Some(arc_clone(a)), off: self.off, len: self.len },
        }
    }
}

impl PartialEq for SharedBytes {
    fn eq(&self, other: &Self) -> (res: bool) {
        self.eq_const(other)
    }
}

impl vstd::std_specs::cmp::PartialEqSpecImpl for SharedBytes {
    open spec fn obeys_eq_spec() -> bool {
        true
    }

    open spec fn eq_spec(&self, other: &Self) -> bool {
        self@ == other@
    }
}

impl Eq for SharedBytes {

}

impl Default for SharedBytes {
    fn default() -> (res: Self)
        ensures
            res@ == Seq::<u8>::empty(),
    {
        Self::empty()
    }
}

} // verus!
