//! Short byte sequences stored inline.
use vstd::prelude::*;
use vstd::string::StringSliceAdditionalSpecFns;

verus! {

/// A chunk of bytes that is 14 bytes or less, stored inline.
#[derive(Clone, Copy)]
pub struct ByteChunk {
    /// The length of the chunk.
    pub(crate) len: u8,
    /// The data of the chunk.
    pub(crate) data: [u8; 14],
}

impl View for ByteChunk {
    type V = Seq<u8>;

    closed spec fn view(&self) -> Seq<u8> {
        self.data@.take(self.len as int)
    }
}

impl ByteChunk {
    /// The maximum length of a `ByteChunk`.
    pub const LEN: usize = 14;

    #[verifier::type_invariant]
    spec fn inv(self) -> bool {
        self.len <= 14
    }

    /// Create a `ByteChunk` from a slice of at most 14 bytes.
    pub fn from_slice(data: &[u8]) -> (res: Self)
        requires
            data@.len() <= 14,
        ensures
            res@ == data@,
    {
        let len = data.len();
        let mut buf = [0u8; 14];
        let mut i: usize = 0;
        while i < len
            invariant
                len == data@.len(),
                len <= 14,
                i <= len,
                buf@.len() == 14,
                forall|k: int| 0 <= k < i ==> buf@[k] == data@[k],
            decreases len - i,
        {
            buf[i] = data[i];
            i += 1;
        }
        let res = ByteChunk { len: len as u8, data: buf };
        assert(res@ =~= data@);
        res
    }

    /// Create a `ByteChunk` from a fixed-size array of at most 14 bytes.
    pub fn from_array<const L: usize>(data: &[u8; L]) -> (res: Self)
        requires
            L <= 14,
        ensures
            res@ == data@,
    {
        let mut buf = [0u8; 14];
        let mut i: usize = 0;
        while i < L
            invariant
                data@.len() == L,
                L <= 14,
                i <= L,
                buf@.len() == 14,
                forall|k: int| 0 <= k < i ==> buf@[k] == data@[k],
            decreases L - i,
        {
            buf[i] = data[i];
            i += 1;
        }
        let res = ByteChunk { len: L as u8, data: buf };
        assert(res@ =~= data@);
        res
    }

    /// Create a `ByteChunk` holding a single byte.
    pub fn from_byte(data: u8) -> (res: Self)
        ensures
            res@ == seq![data],
    {
        let mut buf = [0u8; 14];
        buf[0] = data;
        let res = ByteChunk { len: 1, data: buf };
        assert(res@ =~= seq![data]);
        res
    }

    /// Attempts to add a byte to this chunk.
    /// Returns `true` if the byte was added, `false` if the chunk is full.
    pub fn push(&mut self, byte: u8) -> (added: bool)
        ensures
            added == (old(self)@.len() < 14),
            added ==> final(self)@ == old(self)@.push(byte),
            !added ==> final(self)@ == old(self)@,
    {
        proof {
            use_type_invariant(&*self);
        }
        if self.len >= 14 {
            return false;
        }
        let ghost before = self@;
        let n = self.len as usize;
        let mut data = self.data;
        data[n] = byte;
        *self = ByteChunk { len: self.len + 1, data };
        assert(self@ =~= before.push(byte));
        true
    }

    /// Get the bytes of the `ByteChunk` as a slice.
    pub fn as_slice(&self) -> (res: &[u8])
        ensures
            res@ == self@,
    {
        proof {
            use_type_invariant(self);
        }
        let len = self.len as usize;
        let res = self.data.as_slice();
        &res[0..len]
    }

    /// Get the number bytes of the `ByteChunk`.
    pub fn len(&self) -> (res: usize)
        ensures
            res == self@.len(),
            res <= 14,
    {
        proof {
            use_type_invariant(self);
        }
        self.len as usize
    }

    /// Check if the `ByteChunk` is empty.
    pub fn is_empty(&self) -> (res: bool)
        ensures
            res == (self@.len() == 0),
    {
        proof {
            use_type_invariant(self);
        }
        self.len == 0
    }

    /// Slice the `ByteChunk` in place.
    fn slice(&mut self, start: usize, end: usize)
        requires
            start <= end <= old(self)@.len(),
        ensures
            final(self)@ == old(self)@.subrange(start as int, end as int),
    {
        proof {
            use_type_invariant(&*self);
        }
        let ghost before = self@;
        let len = end - start;
        let mut data = self.data;
        let mut i: usize = 0;
        while i < len
            invariant
                len == end - start,
                end <= 14,
                data@.len() == 14,
                self.data@.len() == 14,
                i <= len,
                before == self.data@.take(self.len as int),
                end <= self.len,
                forall|k: int| 0 <= k < i ==> data@[k] == self.data@[start + k],
            decreases len - i,
        {
            data[i] = self.data[start + i];
            i += 1;
        }
        *self = ByteChunk { len: len as u8, data };
        assert(self@ =~= before.subrange(start as int, end as int));
    }

    /// Return a subslice of the `ByteChunk`.
    pub fn sliced(&self, range: core::ops::Range<usize>) -> (res: Self)
        requires
            range.start <= range.end <= self@.len(),
        ensures
            res@ == self@.subrange(range.start as int, range.end as int),
    {
        let mut ret = *self;
        ret.slice(range.start, range.end);
        ret
    }

    /// Return a subslice of the `ByteChunk`.
    pub fn into_sliced(self, range: core::ops::Range<usize>) -> (res: Self)
        requires
            range.start <= range.end <= self@.len(),
        ensures
            res@ == self@.subrange(range.start as int, range.end as int),
    {
        let mut ret = self;
        ret.slice(range.start, range.end);
        ret
    }

    /// Slice the `ByteChunk` in place.
    pub fn make_sliced(&mut self, range: core::ops::Range<usize>)
        requires
            range.start <= range.end <= old(self)@.len(),
        ensures
            final(self)@ == old(self)@.subrange(range.start as int, range.end as int),
    {
        self.slice(range.start, range.end);
    }

    /// Appends the bytes of `s` to the end of the chunk.
    /// A write that would overflow the chunk leaves it unchanged and fails.
    pub fn write_str(&mut self, s: &str) -> (res: Result<(), ()>)
        ensures
            res is Ok <==> old(self)@.len() + s.spec_bytes().len() <= 14,
            res is Ok ==> final(self)@ == old(self)@ + s.spec_bytes(),
            res is Err ==> final(self)@ == old(self)@,
    {
        proof {
            use_type_invariant(&*self);
        }
        let s = s.as_bytes();
        let len = s.len();
        let self_len = self.len as usize;
        if len > 14 - self_len {
            return Err(());
        }
        let ghost before = self@;
        let mut data = self.data;
        let mut i: usize = 0;
        while i < len
            invariant
                len == s@.len(),
                self_len + len <= 14,
                self_len == self.len,
                data@.len() == 14,
                self.data@.len() == 14,
                i <= len,
                forall|k: int| 0 <= k < self_len ==> data@[k] == self.data@[k],
                forall|k: int| 0 <= k < i ==> data@[self_len + k] == s@[k],
            decreases len - i,
        {
            data[self_len + i] = s[i];
            i += 1;
        }
        *self = ByteChunk { len: (self_len + len) as u8, data };
        assert(self@ =~= before + s@);
        Ok(())
    }
}

impl PartialEq for ByteChunk {
    fn eq(&self, other: &Self) -> (res: bool) {
        crate::slices::const_eq(self.as_slice(), other.as_slice())
    }
}

impl vstd::std_specs::cmp::PartialEqSpecImpl for ByteChunk {
    open spec fn obeys_eq_spec() -> bool {
        true
    }

    open spec fn eq_spec(&self, other: &Self) -> bool {
        self@ == other@
    }
}

impl Eq for ByteChunk {

}

impl Default for ByteChunk {
    fn default() -> (res: Self)
        ensures
            res@ == Seq::<u8>::empty(),
    {
        let res = ByteChunk { len: 0, data: [0u8; 14] };
        assert(res@ =~= Seq::<u8>::empty());
        res
    }
}

} // verus!
