//! Reading from and writing to byte containers, in the manner of `std::io`.
use vstd::prelude::*;

use crate::bytedata::ByteData;
use crate::queue::ByteQueue;
use crate::shared_bytes::SharedBytes;
use crate::shared_bytes_builder::SharedBytesBuilder;

verus! {

/// Copies the first `n` bytes of `src` to the front of `dst`.
fn copy_prefix(dst: &mut [u8], src: &[u8], n: usize)
    requires
        n <= src@.len(),
        n <= old(dst)@.len(),
    ensures
        final(dst)@.len() == old(dst)@.len(),
        final(dst)@.take(n as int) == src@.take(n as int),
        final(dst)@.skip(n as int) == old(dst)@.skip(n as int),
{
    let mut i: usize = 0;
    while i < n
        invariant
            n <= src@.len(),
            dst@.len() == old(dst)@.len(),
            n <= dst@.len(),
            i <= n,
            forall|k: int| 0 <= k < i ==> dst@[k] == src@[k],
            forall|k: int| n <= k < dst@.len() ==> dst@[k] == old(dst)@[k],
        decreases n - i,
    {
        dst[i] = src[i];
        i += 1;
    }
    assert(dst@.take(n as int) =~= src@.take(n as int));
    assert(dst@.skip(n as int) =~= old(dst)@.skip(n as int));
}

/// Appends a slice to a vector.
fn append_slice(buf: &mut Vec<u8>, data: &[u8])
    ensures
        final(buf)@ == old(buf)@ + data@,
{
    let mut i: usize = 0;
    let n = data.len();
    while i < n
        invariant
            n == data@.len(),
            i <= n,
            buf@ == old(buf)@ + data@.take(i as int),
        decreases n - i,
    {
        buf.push(data[i]);
        proof {
            assert(data@.take(i + 1) =~= data@.take(i as int).push(data@[i as int]));
        }
        i += 1;
    }
    assert(data@.take(n as int) =~= data@);
}

/// How many bytes a read that stops after `byte` takes from `data`: up to and
/// including the first occurrence of `byte`, or all of it.
pub open spec fn until_len(data: Seq<u8>, byte: u8, k: int) -> bool {
    &&& 0 <= k <= data.len()
    &&& forall|i: int| 0 <= i < k - 1 ==> data[i] != byte
    &&& (k < data.len() ==> k > 0 && data[k - 1] == byte)
    &&& (k == data.len() && k > 0 && data[k - 1] != byte ==> !data.contains(byte))
}

/// Finds how many bytes a read that stops after `byte` takes.
fn read_until_len(dd: &[u8], byte: u8) -> (res: usize)
    ensures
        until_len(dd@, byte, res as int),
{
    let len = dd.len();
    let mut i: usize = 0;
    while i < len
        invariant
            len == dd@.len(),
            i <= len,
            forall|k: int| 0 <= k < i ==> dd@[k] != byte,
        decreases len - i,
    {
        if dd[i] == byte {
            return i + 1;
        }
        i += 1;
    }
    proof {
        if dd@.contains(byte) {
            let k = choose|k: int| 0 <= k < dd@.len() && dd@[k] == byte;
            assert(dd@[k] != byte);
        }
    }
    len
}

impl<'a> ByteData<'a> {
    /// Reads bytes into `buf`, as many as fit, and drops them from the front.
    pub fn read(&mut self, buf: &mut [u8]) -> (res: usize)
        ensures
            res == if old(buf)@.len() < old(self)@.len() {
                old(buf)@.len()
            } else {
                old(self)@.len()
            },
            final(buf)@.len() == old(buf)@.len(),
            final(buf)@.take(res as int) == old(self)@.take(res as int),
            final(buf)@.skip(res as int) == old(buf)@.skip(res as int),
            final(self)@ == old(self)@.skip(res as int),
    {
        let n = if buf.len() < self.len() {
            buf.len()
        } else {
            self.len()
        };
        copy_prefix(buf, self.as_slice(), n);
        let len = self.len();
        self.make_sliced(n..len);
        proof {
            assert(self@ =~= old(self)@.skip(n as int));
        }
        n
    }

    /// Appends all bytes to `buf` and empties the data.
    pub fn read_to_end(&mut self, buf: &mut Vec<u8>) -> (res: usize)
        ensures
            res == old(self)@.len(),
            final(buf)@ == old(buf)@ + old(self)@,
            final(self)@ == Seq::<u8>::empty(),
    {
        let len = self.len();
        append_slice(buf, self.as_slice());
        *self = ByteData::empty();
        len
    }

    /// The bytes available to read.
    pub fn fill_buf(&self) -> (res: &[u8])
        ensures
            res@ == self@,
    {
        self.as_slice()
    }

    /// Drops `amt` bytes, which must be available, from the front.
    pub fn consume(&mut self, amt: usize)
        requires
            amt <= old(self)@.len(),
        ensures
            final(self)@ == old(self)@.skip(amt as int),
    {
        let len = self.len();
        self.make_sliced(amt..len);
        assert(self@ =~= old(self)@.skip(amt as int));
    }

    /// Reads bytes up to and including the first `byte`, or all of them, into `buf`.
    pub fn read_until(&mut self, byte: u8, buf: &mut Vec<u8>) -> (res: usize)
        ensures
            until_len(old(self)@, byte, res as int),
            final(buf)@ == old(buf)@ + old(self)@.take(res as int),
            final(self)@ == old(self)@.skip(res as int),
    {
        let dd = self.as_slice();
        let ret = read_until_len(dd, byte);
        append_slice(buf, &dd[0..ret]);
        let len = self.len();
        self.make_sliced(ret..len);
        proof {
            assert(self@ =~= old(self)@.skip(ret as int));
            assert(old(self)@.subrange(0, ret as int) =~= old(self)@.take(ret as int));
        }
        ret
    }
}

impl SharedBytes {
    /// Reads bytes into `buf`, as many as fit, and drops them from the front.
    pub fn read(&mut self, buf: &mut [u8]) -> (res: usize)
        ensures
            res == if old(buf)@.len() < old(self)@.len() {
                old(buf)@.len()
            } else {
                old(self)@.len()
            },
            final(buf)@.len() == old(buf)@.len(),
            final(buf)@.take(res as int) == old(self)@.take(res as int),
            final(buf)@.skip(res as int) == old(buf)@.skip(res as int),
            final(self)@ == old(self)@.skip(res as int),
    {
        let n = if buf.len() < self.len() {
            buf.len()
        } else {
            self.len()
        };
        copy_prefix(buf, self.as_slice(), n);
        let len = self.len();
        self.make_sliced(n, len - n);
        proof {
            assert(self@ =~= old(self)@.skip(n as int));
        }
        n
    }

    /// Appends all bytes to `buf` and empties the value.
    pub fn read_to_end(&mut self, buf: &mut Vec<u8>) -> (res: usize)
        ensures
            res == old(self)@.len(),
            final(buf)@ == old(buf)@ + old(self)@,
            final(self)@ == Seq::<u8>::empty(),
    {
        let len = self.len();
        append_slice(buf, self.as_slice());
        *self = SharedBytes::empty();
        len
    }

    /// The bytes available to read.
    pub fn fill_buf(&self) -> (res: &[u8])
        ensures
            res@ == self@,
    {
        self.as_slice()
    }

    /// Drops `amt` bytes, which must be available, from the front.
    pub fn consume(&mut self, amt: usize)
        requires
            amt <= old(self)@.len(),
        ensures
            final(self)@ == old(self)@.skip(amt as int),
    {
        let len = self.len();
        self.make_sliced(amt, len - amt);
        assert(self@ =~= old(self)@.skip(amt as int));
    }

    /// Reads bytes up to and including the first `byte`, or all of them, into `buf`.
    pub fn read_until(&mut self, byte: u8, buf: &mut Vec<u8>) -> (res: usize)
        ensures
            until_len(old(self)@, byte, res as int),
            final(buf)@ == old(buf)@ + old(self)@.take(res as int),
            final(self)@ == old(self)@.skip(res as int),
    {
        let dd = self.as_slice();
        let ret = read_until_len(dd, byte);
        append_slice(buf, &dd[0..ret]);
        let len = self.len();
        self.make_sliced(ret, len - ret);
        proof {
            assert(self@ =~= old(self)@.skip(ret as int));
            assert(old(self)@.subrange(0, ret as int) =~= old(self)@.take(ret as int));
        }
        ret
    }
}

impl SharedBytesBuilder {
    /// Appends the bytes of `buf`, which must fit with the header within
    /// `0xFFFF_FFFF` bytes, and tells how many were written.
    pub fn write(&mut self, buf: &[u8]) -> (res: usize)
        requires
            old(self).spec_end() + buf@.len() <= 0xFFFF_FFFF,
        ensures
            res == buf@.len(),
            final(self)@ == old(self)@ + buf@,
    {
        self.extend_from_slice(buf);
        buf.len()
    }

    /// Nothing is buffered apart from the data itself, so flushing does nothing.
    pub fn flush(&mut self) -> (res: Result<(), ()>)
        ensures
            res is Ok,
            *final(self) == *old(self),
    {
        Ok(())
    }
}

impl<'a> ByteQueue<'a> {
    /// Reads bytes into `buf`, as many as fit, and drops them from the front.
    pub fn read(&mut self, buf: &mut [u8]) -> (res: usize)
        ensures
            res == if old(buf)@.len() < old(self)@.len() {
                old(buf)@.len()
            } else {
                old(self)@.len()
            },
            final(buf)@.len() == old(buf)@.len(),
            final(buf)@.take(res as int) == old(self)@.take(res as int),
            final(buf)@.skip(res as int) == old(buf)@.skip(res as int),
            final(self)@ == old(self)@.skip(res as int),
    {
        let n = if buf.len() < self.len() {
            buf.len()
        } else {
            self.len()
        };
        let mut i: usize = 0;
        while i < n
            invariant
                n <= self@.len(),
                self@ == old(self)@,
                buf@.len() == old(buf)@.len(),
                n <= buf@.len(),
                i <= n,
                forall|k: int| 0 <= k < i ==> buf@[k] == self@[k],
                forall|k: int| n <= k < buf@.len() ==> buf@[k] == old(buf)@[k],
            decreases n - i,
        {
            buf[i] = self.get_byte(i);
            i += 1;
        }
        proof {
            assert(buf@.take(n as int) =~= self@.take(n as int));
            assert(buf@.skip(n as int) =~= old(buf)@.skip(n as int));
        }
        self.consume(n);
        n
    }

    /// Appends all bytes to `buf` and empties the queue.
    pub fn read_to_end(&mut self, buf: &mut Vec<u8>) -> (res: usize)
        ensures
            res == old(self)@.len(),
            final(buf)@ == old(buf)@ + old(self)@,
            final(self)@ == Seq::<u8>::empty(),
    {
        let len = self.len();
        let ghost orig = self@;
        let ghost start = buf@;
        loop
            invariant
                buf@ + self@ == start + orig,
            ensures
                self@ == Seq::<u8>::empty(),
                buf@ == start + orig,
            decreases self@.len(),
        {
            let ghost before = self@;
            match self.pop_front() {
                None => {
                    proof {
                        assert(self@ =~= Seq::<u8>::empty());
                        assert(buf@ + self@ =~= buf@);
                    }
                    break;
                },
                Some(d) => {
                    let ghost b0 = buf@;
                    append_slice(buf, d.as_slice());
                    proof {
                        assert(buf@ + self@ =~= b0 + before);
                    }
                },
            }
        }
        len
    }

    /// The bytes of the first chunk, or none.
    pub fn fill_buf(&self) -> (res: &[u8])
        ensures
            res@.is_prefix_of(self@),
            self@.len() > 0 ==> res@.len() > 0,
    {
        self.check_well_formed();
        match self.front() {
            None => &[],
            Some(ff) => {
                proof {
                    crate::queue::byte_queue::lemma_flat_first(self.spec_chunks());
                }
                ff.as_slice()
            },
        }
    }

    /// Reads bytes up to and including the first `byte`, or all of them, into `buf`.
    pub fn read_until(&mut self, byte: u8, buf: &mut Vec<u8>) -> (res: usize)
        ensures
            until_len(old(self)@, byte, res as int),
            final(buf)@ == old(buf)@ + old(self)@.take(res as int),
            final(self)@ == old(self)@.skip(res as int),
    {
        let len = self.len();
        let mut k: usize = 0;
        let mut found = false;
        while k < len && !found
            invariant
                len == self@.len(),
                self@ == old(self)@,
                k <= len,
                found ==> k > 0 && self@[k - 1] == byte,
                forall|i: int| 0 <= i < (if found { k - 1 } else { k as int }) ==> self@[i] != byte,
            decreases len - k,
        {
            if self.get_byte(k) == byte {
                found = true;
            }
            k += 1;
        }
        proof {
            if k == len && k > 0 && self@[k - 1] != byte && self@.contains(byte) {
                let j = choose|j: int| 0 <= j < self@.len() && self@[j] == byte;
                assert(self@[j] != byte);
            }
        }
        let mut i: usize = 0;
        while i < k
            invariant
                k <= self@.len(),
                self@ == old(self)@,
                i <= k,
                buf@ == old(buf)@ + self@.take(i as int),
            decreases k - i,
        {
            buf.push(self.get_byte(i));
            proof {
                assert(self@.take(i + 1) =~= self@.take(i as int).push(self@[i as int]));
            }
            i += 1;
        }
        self.consume(k);
        k
    }

    /// Appends a copy of the bytes of `buf` as a new chunk, and tells how many
    /// were written. A long buffer is copied into a shared buffer, so it must fit in one.
    pub fn write(&mut self, buf: &[u8]) -> (res: usize)
        requires
            buf@.len() + 12 <= 0xFFFF_FFFF,
            old(self)@.len() + buf@.len() <= usize::MAX,
        ensures
            res == buf@.len(),
            final(self)@ == old(self)@ + buf@,
    {
        let len = buf.len();
        if len <= crate::byte_chunk::ByteChunk::LEN {
            self.push_back(ByteData::from_chunk_slice(buf));
            return len;
        }
        let data = ByteData::from_shared(SharedBytes::from_slice(buf));
        self.push_back(data);
        len
    }

    /// Nothing is buffered apart from the data itself, so flushing does nothing.
    pub fn flush(&mut self) -> (res: Result<(), ()>)
        ensures
            res is Ok,
            final(self)@ == old(self)@,
    {
        Ok(())
    }
}

} // verus!
