//! A growable buffer that is frozen into a [`SharedBytes`].
use vstd::prelude::*;

use crate::shared_bytes::{compute_start_offset, start_offset, SharedBytes, META_ALIGN};

verus! {

/// `n` is a power of two.
pub open spec fn is_pow2(n: int) -> bool
    decreases n,
{
    if n <= 0 {
        false
    } else if n == 1 {
        true
    } else {
        n % 2 == 0 && is_pow2(n / 2)
    }
}

/// The smallest power of two that is at least `n`, searching upwards from `p`.
pub open spec fn next_pow2_from(p: int, n: int) -> int
    decreases (if p < n { n - p } else { 0 }),
{
    if p <= 0 || p >= n {
        p
    } else {
        next_pow2_from(2 * p, n)
    }
}

/// The smallest power of two that is at least `n`.
pub open spec fn next_pow2(n: int) -> int {
    next_pow2_from(1, n)
}

/// Doubling a power of two gives a power of two.
proof fn lemma_pow2_double(p: int)
    requires
        is_pow2(p),
    ensures
        is_pow2(2 * p),
{
    assert((2 * p) / 2 == p);
}

/// Powers of two are positive.
proof fn lemma_pow2_pos(p: int)
    requires
        is_pow2(p),
    ensures
        p >= 1,
{
}

/// The powers of two up to 512.
pub proof fn lemma_small_pow2s()
    ensures
        is_pow2(1),
        is_pow2(2),
        is_pow2(4),
        is_pow2(8),
        is_pow2(16),
        is_pow2(32),
        is_pow2(64),
        is_pow2(128),
        is_pow2(256),
        is_pow2(512),
        valid_align(4),
        start_offset(4) == 12,
{
    reveal_with_fuel(is_pow2, 11);
}

/// Every start offset leaves room for the header and is no larger than needed.
pub proof fn lemma_start_offset_bounds(align: int)
    requires
        align > 0,
    ensures
        start_offset(align) >= 12,
        align <= 512 ==> start_offset(align) <= 512,
{
}

/// The search for the next power of two yields a power of two no smaller than
/// its target, and less than twice it.
proof fn lemma_next_pow2_from(p: int, n: int)
    requires
        is_pow2(p),
        p == 1 || p < 2 * n,
    ensures
        is_pow2(next_pow2_from(p, n)),
        next_pow2_from(p, n) >= n,
        next_pow2_from(p, n) == 1 || next_pow2_from(p, n) < 2 * n,
    decreases (if p < n { n - p } else { 0 }),
{
    lemma_pow2_pos(p);
    if p < n {
        lemma_pow2_double(p);
        lemma_next_pow2_from(2 * p, n);
    }
}

/// Of two powers of two, the smaller is at most half the larger.
proof fn lemma_pow2_gap(q: int, p: int)
    requires
        is_pow2(q),
        is_pow2(p),
        q < p,
    ensures
        2 * q <= p,
    decreases p,
{
    lemma_pow2_pos(q);
    if q > 1 {
        lemma_pow2_gap(q / 2, p / 2);
    }
}

/// The search for the next power of two stops at or below any power of two
/// that is at least its target.
pub proof fn lemma_next_pow2_least(q: int, n: int, p: int)
    requires
        is_pow2(q),
        is_pow2(p),
        q <= p,
        n <= p,
    ensures
        next_pow2_from(q, n) <= p,
        is_pow2(next_pow2_from(q, n)),
        next_pow2_from(q, n) >= n,
    decreases p - q,
{
    lemma_pow2_pos(q);
    if q < n {
        lemma_pow2_gap(q, p);
        lemma_pow2_double(q);
        lemma_next_pow2_least(2 * q, n, p);
    }
}

/// Computes the smallest power of two that is at least `n`.
pub fn next_power_of_two(n: usize) -> (res: usize)
    requires
        n <= 0x8000_0000,
    ensures
        res == next_pow2(n as int),
        is_pow2(res as int),
        res >= n,
        res == 1 || res < 2 * n,
{
    proof {
        lemma_next_pow2_from(1, n as int);
        lemma_small_pow2s();
    }
    let mut p: usize = 1;
    while p < n
        invariant
            n <= 0x8000_0000,
            is_pow2(p as int),
            1 <= p,
            p == 1 || p < 2 * n,
            next_pow2_from(p as int, n as int) == next_pow2(n as int),
        decreases (if p < n { n - p } else { 0 }),
    {
        proof {
            lemma_pow2_double(p as int);
        }
        p = p * 2;
    }
    p
}

/// The alignments that a builder accepts once raised to the header's alignment.
pub open spec fn valid_align(align: int) -> bool {
    &&& is_pow2(align)
    &&& 4 <= align <= 512
}

/// The allocation size that the growth policy picks to hold `new_off` bytes
/// (header included). Past 32 KiB it grows in steps of 32 KiB; below, to the
/// next power of two. `inclusive` says whether exactly 32 KiB takes the first rule.
pub open spec fn grown_len(new_off: usize, inclusive: bool) -> int {
    if (inclusive && new_off >= 0x8000) || (!inclusive && new_off > 0x8000) {
        let stepped = (new_off & 0xFFFF_8000usize) + 0x8000;
        if stepped > 0xFFFF_FFFF {
            0xFFFF_FFFF
        } else {
            stepped
        }
    } else {
        next_pow2(new_off as int)
    }
}

/// The allocation size that the growth policy picks when asked for room beyond
/// the `off` bytes in use.
pub open spec fn extra_len(off: int) -> int {
    if off >= 0x8000 {
        grown_len(off as usize, true)
    } else {
        next_pow2(off + 7)
    }
}

/// The larger of two integers.
pub open spec fn max_int(a: int, b: int) -> int {
    if a > b {
        a
    } else {
        b
    }
}

/// `a + b`, saturated at the largest `usize`.
pub open spec fn saturated_sum(a: int, b: int) -> usize {
    if a + b > usize::MAX {
        usize::MAX
    } else {
        (a + b) as usize
    }
}

/// Computes [`grown_len`].
fn compute_grown_len(new_off: usize, inclusive: bool) -> (res: usize)
    requires
        new_off >= 0x8000 || new_off <= 0x8000_0000,
    ensures
        res == grown_len(new_off, inclusive),
        res <= 0xFFFF_FFFF,
        new_off <= 0xFFFF_FFFF ==> res >= new_off,
        (inclusive && new_off >= 0x8000) || (!inclusive && new_off > 0x8000) ==> res >= 0x8000,
        res >= 1,
{
    if (inclusive && new_off >= 0x8000) || (!inclusive && new_off > 0x8000) {
        let masked = new_off & 0xFFFF_8000usize;
        assert(masked <= 0xFFFF_8000usize) by (bit_vector)
            requires
                masked == new_off & 0xFFFF_8000usize,
        ;
        assert(new_off <= 0xFFFF_FFFF ==> masked + 0x8000 > new_off) by (bit_vector)
            requires
                masked == new_off & 0xFFFF_8000usize,
        ;
        let stepped = masked.saturating_add(0x8000);
        if stepped > 0xFFFF_FFFF {
            0xFFFF_FFFF
        } else {
            stepped
        }
    } else {
        next_power_of_two(new_off)
    }
}

/// A builder for `SharedBytes`.
pub struct SharedBytesBuilder {
    /// The total size reserved for the buffer, header included; zero before
    /// anything is reserved.
    pub(crate) len: u32,
    /// The offset of the first unused byte, header included.
    pub(crate) off: u32,
    /// The alignment of the buffer.
    pub(crate) align: usize,
    /// The bytes written so far.
    pub(crate) dat: Vec<u8>,
}

impl View for SharedBytesBuilder {
    type V = Seq<u8>;

    closed spec fn view(&self) -> Seq<u8> {
        self.dat@
    }
}

impl SharedBytesBuilder {
    #[verifier::type_invariant]
    spec fn inv(self) -> bool {
        &&& valid_align(self.align as int)
        &&& self.off == start_offset(self.align as int) + self.dat@.len()
        &&& self.len == 0 ==> self.dat@.len() == 0
        &&& self.len != 0 ==> self.off <= self.len
    }

    /// The number of bytes the buffer holds without growing.
    pub closed spec fn spec_capacity(&self) -> int {
        if self.len == 0 {
            0
        } else {
            self.len - start_offset(self.align as int)
        }
    }

    /// The alignment of the buffer.
    pub closed spec fn spec_align(&self) -> int {
        self.align as int
    }

    /// The offset of the first unused byte, header included.
    pub closed spec fn spec_end(&self) -> int {
        self.off as int
    }

    /// The total size reserved, header included.
    pub closed spec fn spec_reserved(&self) -> int {
        self.len as int
    }

    /// Facts that every builder satisfies.
    pub fn lemma_well_formed(&self)
        ensures
            valid_align(self.spec_align()),
            self.spec_end() == start_offset(self.spec_align()) + self@.len(),
            self.spec_end() <= 0xFFFF_FFFF,
            self.spec_reserved() <= 0xFFFF_FFFF,
            self.spec_reserved() == 0 ==> self@.len() == 0 && self.spec_capacity() == 0,
            self.spec_reserved() != 0 ==> self.spec_capacity() == self.spec_reserved()
                - start_offset(self.spec_align()) && self@.len() <= self.spec_capacity(),
            start_offset(self.spec_align()) <= 512,
    {
        proof {
            use_type_invariant(self);
        }
    }

    /// The alignment of the buffer.
    pub fn alignment(&self) -> (res: usize)
        ensures
            res == self.spec_align(),
    {
        self.align
    }

    /// Creates a new `SharedBytesBuilder`.
    pub fn new() -> (res: Self)
        ensures
            res@ == Seq::<u8>::empty(),
            res.spec_capacity() == 0,
            res.spec_align() == META_ALIGN,
            res.spec_end() == 12,
            res.spec_reserved() == 0,
    {
        proof {
            lemma_small_pow2s();
        }
        SharedBytesBuilder { len: 0, off: 12, align: META_ALIGN, dat: Vec::new() }
    }

    /// Creates a new `SharedBytesBuilder` with the given alignment, which must be
    /// a power of two no greater than 512. Alignments below 4 are raised to 4.
    pub fn with_alignment(alignment: usize) -> (res: Self)
        requires
            is_pow2(alignment as int),
            alignment <= 512,
        ensures
            res@ == Seq::<u8>::empty(),
            res.spec_capacity() == 0,
            res.spec_align() == if alignment < 4 {
                4
            } else {
                alignment
            },
    {
        let align = if alignment < META_ALIGN {
            META_ALIGN
        } else {
            alignment
        };
        proof {
            lemma_small_pow2s();
            lemma_start_offset_bounds(align as int);
        }
        let off = compute_start_offset(align);
        SharedBytesBuilder { len: 0, off, align, dat: Vec::new() }
    }

    /// Raises an alignment to that of the header, checking that `cap` bytes fit
    /// after the header.
    fn cap_check(cap: usize, alignment: usize) -> (res: usize)
        requires
            alignment <= 512,
            cap + start_offset(if alignment < 4 { 4 } else { alignment as int }) <= 0xFFFF_FFFF,
        ensures
            res == if alignment < 4 {
                4
            } else {
                alignment
            },
    {
        if alignment < META_ALIGN {
            META_ALIGN
        } else {
            alignment
        }
    }

    /// Creates a new `SharedBytesBuilder` with at least the specified capacity.
    /// The capacity must leave room for the header within `0xFFFF_FFFF` bytes.
    pub fn with_capacity(cap: usize) -> (res: Self)
        requires
            cap + 12 <= 0xFFFF_FFFF,
        ensures
            res@ == Seq::<u8>::empty(),
            res.spec_capacity() == cap,
            res.spec_align() == META_ALIGN,
    {
        if cap == 0 {
            return Self::new();
        }
        let align = Self::cap_check(cap, META_ALIGN);
        proof {
            lemma_small_pow2s();
        }
        Self::with_capacity_u32(cap as u32, align)
    }

    /// Creates a new `SharedBytesBuilder` with at least the specified capacity and
    /// the given alignment, a power of two no greater than 512.
    /// The capacity must leave room for the header within `0xFFFF_FFFF` bytes.
    pub fn with_aligned_capacity(cap: usize, alignment: usize) -> (res: Self)
        requires
            is_pow2(alignment as int),
            alignment <= 512,
            cap + start_offset(if alignment < 4 { 4 } else { alignment as int }) <= 0xFFFF_FFFF,
        ensures
            res@ == Seq::<u8>::empty(),
            res.spec_capacity() == cap,
            res.spec_align() == if alignment < 4 {
                4
            } else {
                alignment
            },
    {
        if cap == 0 {
            return Self::with_alignment(alignment);
        }
        let align = Self::cap_check(cap, alignment);
        proof {
            lemma_small_pow2s();
        }
        Self::with_capacity_u32(cap as u32, align)
    }

    fn with_capacity_u32(cap: u32, align: usize) -> (res: Self)
        requires
            valid_align(align as int),
            cap > 0,
            cap + start_offset(align as int) <= 0xFFFF_FFFF,
        ensures
            res@ == Seq::<u8>::empty(),
            res.spec_capacity() == cap,
            res.spec_align() == align,
    {
        proof {
            lemma_start_offset_bounds(align as int);
        }
        let off = compute_start_offset(align);
        let len = cap + off;
        SharedBytesBuilder { len, off, align, dat: Vec::with_capacity(cap as usize) }
    }

    /// Takes a vector of written bytes as a builder, without copying.
    pub(crate) fn from_vec(dat: Vec<u8>) -> (res: Self)
        requires
            dat@.len() + 12 <= 0xFFFF_FFFF,
        ensures
            res@ == dat@,
            res.spec_align() == META_ALIGN,
    {
        proof {
            lemma_small_pow2s();
        }
        let off = 12 + dat.len() as u32;
        SharedBytesBuilder { len: off, off, align: META_ALIGN, dat }
    }

    /// Grows the reservation to the next step of the growth policy.
    pub(crate) fn reserve_extra(&mut self)
        ensures
            final(self)@ == old(self)@,
            final(self).spec_align() == old(self).spec_align(),
            old(self).spec_end() == 0xFFFF_FFFF ==> final(self).spec_reserved() == old(self).spec_reserved(),
            old(self).spec_end() < 0xFFFF_FFFF ==> final(self).spec_reserved() == max_int(
                extra_len(old(self).spec_end()),
                old(self).spec_reserved(),
            ),
    {
        proof {
            use_type_invariant(&*self);
        }
        let off = self.off as usize;
        if off == 0xFFFF_FFFF {
            return;
        }
        let new_len = if off >= 0x8000 {
            compute_grown_len(off, true)
        } else {
            next_power_of_two(off + 7)
        };
        self.reserve_exact(new_len);
    }

    /// Reserves capacity for at least `additional` more bytes to be written to the buffer.
    pub fn reserve(&mut self, additional: usize)
        ensures
            final(self)@ == old(self)@,
            final(self).spec_align() == old(self).spec_align(),
            (old(self).spec_end() == 0xFFFF_FFFF || additional == 0) ==> final(self).spec_reserved()
                == old(self).spec_reserved(),
            (old(self).spec_end() < 0xFFFF_FFFF && additional > 0) ==> final(self).spec_reserved()
                == max_int(
                grown_len(saturated_sum(old(self).spec_end(), additional as int), true),
                old(self).spec_reserved(),
            ),
            additional > 0 && old(self).spec_end() + additional <= 0xFFFF_FFFF
                ==> final(self).spec_reserved() >= old(self).spec_end() + additional,
    {
        proof {
            use_type_invariant(&*self);
        }
        let off = self.off as usize;
        if off == 0xFFFF_FFFF || additional == 0 {
            return;
        }
        let new_off = off.saturating_add(additional);
        let new_len = compute_grown_len_any(new_off);
        self.reserve_exact(new_len);
    }

    /// Makes the reservation at least `new_len` bytes, header included.
    pub(crate) fn reserve_exact(&mut self, new_len: usize)
        requires
            new_len <= 0xFFFF_FFFF,
            old(self).spec_reserved() == 0 ==> new_len >= old(self).spec_end(),
        ensures
            final(self)@ == old(self)@,
            final(self).spec_align() == old(self).spec_align(),
            final(self).spec_reserved() == if new_len > old(self).spec_reserved() {
                new_len as int
            } else {
                old(self).spec_reserved()
            },
    {
        proof {
            use_type_invariant(&*self);
        }
        if new_len <= self.len as usize {
            return;
        }
        let extra = new_len - self.off as usize;
        let mut taken = SharedBytesBuilder::new();
        core::mem::swap(self, &mut taken);
        let SharedBytesBuilder { len: _, off, align, dat: mut buf } = taken;
        buf.reserve(extra);
        *self = SharedBytesBuilder { len: new_len as u32, off, align, dat: buf };
    }

    /// Pushes a slice of bytes to the end of the buffer.
    /// The bytes must fit, with the header, within `0xFFFF_FFFF` bytes.
    pub fn extend_from_slice(&mut self, dat: &[u8])
        requires
            old(self).spec_end() + dat@.len() <= 0xFFFF_FFFF,
        ensures
            final(self)@ == old(self)@ + dat@,
            final(self).spec_align() == old(self).spec_align(),
            final(self).spec_reserved() == if dat@.len() > 0 && old(self).spec_end() + dat@.len()
                > old(self).spec_reserved() && grown_len(
                (old(self).spec_end() + dat@.len()) as usize,
                false,
            ) > old(self).spec_reserved() {
                grown_len((old(self).spec_end() + dat@.len()) as usize, false)
            } else {
                old(self).spec_reserved()
            },
    {
        proof {
            use_type_invariant(&*self);
        }
        if dat.len() == 0 {
            assert(self.dat@ + dat@ =~= self.dat@);
            return;
        }
        let off = self.off as usize;
        let new_off = off + dat.len();
        if new_off > self.len as usize {
            let new_len = compute_grown_len_any_strict(new_off);
            self.reserve_exact(new_len);
        }
        let ghost mid = self.len;
        proof {
            use_type_invariant(&*self);
        }
        let mut taken = SharedBytesBuilder::new();
        core::mem::swap(self, &mut taken);
        let SharedBytesBuilder { len, off: _, align, dat: mut buf } = taken;
        buf.extend_from_slice(dat);
        *self = SharedBytesBuilder { len, off: new_off as u32, align, dat: buf };
    }

    /// Clear the buffer.
    pub fn clear(&mut self)
        ensures
            final(self)@ == Seq::<u8>::empty(),
            final(self).spec_align() == old(self).spec_align(),
            final(self).spec_reserved() == old(self).spec_reserved(),
    {
        proof {
            use_type_invariant(&*self);
        }
        if self.len == 0 {
            return;
        }
        let data_off = compute_start_offset(self.align);
        let mut taken = SharedBytesBuilder::new();
        core::mem::swap(self, &mut taken);
        let SharedBytesBuilder { len, off: _, align, dat: mut buf } = taken;
        buf.clear();
        *self = SharedBytesBuilder { len, off: data_off, align, dat: buf };
    }

    /// Truncates the buffer to `len` bytes.
    /// This method does nothing if the buffer contains no more than `len` bytes.
    pub fn truncate(&mut self, len: usize)
        ensures
            final(self)@ == if len < old(self)@.len() {
                old(self)@.take(len as int)
            } else {
                old(self)@
            },
            final(self).spec_align() == old(self).spec_align(),
            final(self).spec_reserved() == old(self).spec_reserved(),
    {
        proof {
            use_type_invariant(&*self);
        }
        if len >= self.dat.len() {
            return;
        }
        let data_off = compute_start_offset(self.align);
        let mut taken = SharedBytesBuilder::new();
        core::mem::swap(self, &mut taken);
        let SharedBytesBuilder { len: total, off: _, align, dat: mut buf } = taken;
        buf.truncate(len);
        *self = SharedBytesBuilder { len: total, off: data_off + len as u32, align, dat: buf };
    }

    /// Freezes the builder and returns a [`SharedBytes`] representing the data.
    pub fn build(self) -> (res: SharedBytes)
        ensures
            res@ == self@,
    {
        proof {
            use_type_invariant(&self);
        }
        if self.len == 0 || self.dat.len() == 0 {
            let res = SharedBytes::empty();
            assert(res@ =~= self@);
            return res;
        }
        let SharedBytesBuilder { len: _, off: _, align: _, dat } = self;
        SharedBytes::from_vec(dat)
    }

    /// Returns total the number of bytes currently available in the buffer.
    pub fn capacity(&self) -> (res: usize)
        ensures
            res == self.spec_capacity(),
    {
        proof {
            use_type_invariant(self);
        }
        if self.len == 0 {
            return 0;
        }
        let data_off = compute_start_offset(self.align);
        (self.len - data_off) as usize
    }

    /// Returns the number of bytes currently written to in the buffer.
    pub fn len(&self) -> (res: usize)
        ensures
            res == self@.len(),
    {
        proof {
            use_type_invariant(self);
        }
        let data_off = compute_start_offset(self.align);
        (self.off - data_off) as usize
    }

    /// Returns `true` if the buffer is empty.
    pub fn is_empty(&self) -> (res: bool)
        ensures
            res == (self@.len() == 0),
    {
        proof {
            use_type_invariant(self);
        }
        if self.len == 0 {
            return true;
        }
        let data_off = compute_start_offset(self.align);
        self.off == data_off
    }

    /// Returns the bytes as a slice.
    pub fn as_slice(&self) -> (res: &[u8])
        ensures
            res@ == self@,
    {
        self.dat.as_slice()
    }

    /// Returns the bytes as a mutable slice, to be changed in place; their
    /// number stays the same.
    pub fn as_slice_mut(&mut self) -> (res: &mut [u8])
        ensures
            res@ == old(self)@,
            final(self)@ == final(res)@,
            final(self).spec_end() == old(self).spec_end(),
            final(self).spec_reserved() == old(self).spec_reserved(),
            final(self).spec_align() == old(self).spec_align(),
        no_unwind
    {
        proof {
            use_type_invariant(&*self);
        }
        vec_as_mut_slice(&mut self.dat)
    }
}

/// The elements of a vector as a mutable slice (`Vec::as_mut_slice`), which
/// cannot panic. Writes through the slice land in the vector, and a slice
/// cannot change its length, so neither does the vector.
#[verifier::external_body]
fn vec_as_mut_slice(v: &mut Vec<u8>) -> (res: &mut [u8])
    ensures
        res@ == old(v)@,
        final(v)@ == final(res)@,
        final(res)@.len() == res@.len(),
    no_unwind
{
    v.as_mut_slice()
}

/// Computes [`grown_len`] with an inclusive threshold for any target size.
fn compute_grown_len_any(new_off: usize) -> (res: usize)
    ensures
        res == grown_len(new_off, true),
        res <= 0xFFFF_FFFF,
        new_off >= 0x8000 ==> res >= 0x8000,
        new_off <= 0xFFFF_FFFF ==> res >= new_off,
{
    if new_off >= 0x8000 {
        compute_grown_len(new_off, true)
    } else {
        let r = next_power_of_two(new_off);
        r
    }
}

/// Computes [`grown_len`] with an exclusive threshold for any target size.
fn compute_grown_len_any_strict(new_off: usize) -> (res: usize)
    ensures
        res == grown_len(new_off, false),
        res <= 0xFFFF_FFFF,
        new_off <= 0xFFFF_FFFF ==> res >= new_off,
{
    if new_off > 0x8000 {
        compute_grown_len(new_off, false)
    } else {
        next_power_of_two(new_off)
    }
}

impl From<SharedBytes> for SharedBytesBuilder {
    fn from(dat: SharedBytes) -> (res: Self)
        ensures
            res@ == dat@,
    {
        dat.into_builder()
    }
}

impl vstd::std_specs::convert::FromSpecImpl<SharedBytes> for SharedBytesBuilder {
    open spec fn obeys_from_spec() -> bool {
        false
    }

    open spec fn from_spec(v: SharedBytes) -> Self {
        vstd::pervasive::arbitrary()
    }
}

impl From<SharedBytesBuilder> for SharedBytes {
    fn from(dat: SharedBytesBuilder) -> (res: Self)
        ensures
            res@ == dat@,
    {
        dat.build()
    }
}

impl vstd::std_specs::convert::FromSpecImpl<SharedBytesBuilder> for SharedBytes {
    open spec fn obeys_from_spec() -> bool {
        false
    }

    open spec fn from_spec(v: SharedBytesBuilder) -> Self {
        vstd::pervasive::arbitrary()
    }
}

impl Default for SharedBytesBuilder {
    fn default() -> (res: Self)
        ensures
            res@ == Seq::<u8>::empty(),
    {
        Self::new()
    }
}

} // verus!
