//! Handing out byte containers as the data frames of an HTTP body, and turning
//! them into HTTP header values.
use vstd::prelude::*;

use crate::bytedata::ByteData;
use crate::bytes_interop::bytes_content;
use crate::parser_input::min_len;
use crate::queue::ByteQueue;
use crate::shared_bytes::SharedBytes;

verus! {

/// The largest data frame handed out at once.
pub const MAX_FRAME: usize = 0xFFFF;

impl<'a> ByteData<'a> {
    /// The next data frame of the body: at most 0xFFFF bytes from the front, or
    /// `None` at the end of the body.
    pub fn next_data_frame(&mut self) -> (res: Option<Self>)
        ensures
            old(self)@.len() == 0 <==> res is None,
            res is None ==> final(self)@ == old(self)@,
            res matches Some(f) ==> {
                &&& f@.len() == if old(self)@.len() > 0xFFFF {
                    0xFFFF
                } else {
                    old(self)@.len()
                }
                &&& f@ + final(self)@ == old(self)@
            },
    {
        if self.is_empty() {
            return None;
        }
        let len = self.len();
        if len > MAX_FRAME {
            let res = self.sliced(0..MAX_FRAME);
            self.make_sliced(MAX_FRAME..len);
            assert(res@ + self@ =~= old(self)@);
            Some(res)
        } else {
            let mut res = ByteData::empty();
            core::mem::swap(self, &mut res);
            assert(res@ + self@ =~= old(self)@);
            Some(res)
        }
    }

    /// Whether the body has no more data.
    pub fn is_end_stream(&self) -> (res: bool)
        ensures
            res == (self@.len() == 0),
    {
        self.is_empty()
    }

    /// The exact number of bytes the body still holds.
    pub fn exact_size_hint(&self) -> (res: u64)
        requires
            self@.len() <= u64::MAX,
        ensures
            res == self@.len(),
    {
        self.len() as u64
    }
}

impl SharedBytes {
    /// The next data frame of the body: at most 0xFFFF bytes from the front, or
    /// `None` at the end of the body.
    pub fn next_data_frame(&mut self) -> (res: Option<Self>)
        ensures
            old(self)@.len() == 0 <==> res is None,
            res is None ==> final(self)@ == old(self)@,
            res matches Some(f) ==> {
                &&& f@.len() == if old(self)@.len() > 0xFFFF {
                    0xFFFF
                } else {
                    old(self)@.len()
                }
                &&& f@ + final(self)@ == old(self)@
            },
    {
        if self.is_empty() {
            return None;
        }
        let len = self.len();
        if len > MAX_FRAME {
            let res = self.sliced(0, MAX_FRAME);
            self.make_sliced(MAX_FRAME, len - MAX_FRAME);
            assert(res@ + self@ =~= old(self)@);
            Some(res)
        } else {
            let mut res = SharedBytes::empty();
            core::mem::swap(self, &mut res);
            assert(res@ + self@ =~= old(self)@);
            Some(res)
        }
    }

    /// Whether the body has no more data.
    pub fn is_end_stream(&self) -> (res: bool)
        ensures
            res == (self@.len() == 0),
    {
        self.is_empty()
    }

    /// The exact number of bytes the body still holds.
    pub fn exact_size_hint(&self) -> (res: u64)
        ensures
            res == self@.len(),
    {
        self.len() as u64
    }
}

impl<'a> ByteQueue<'a> {
    /// The next data frame of the body: at most 0xFFFF bytes of the first chunk,
    /// or `None` at the end of the body.
    pub fn next_data_frame(&mut self) -> (res: Option<ByteData<'a>>)
        ensures
            old(self)@.len() == 0 <==> res is None,
            res is None ==> final(self)@ == old(self)@,
            res matches Some(f) ==> {
                &&& 0 < f@.len() <= 0xFFFF
                &&& f@ + final(self)@ == old(self)@
                &&& f@ == old(self).spec_chunks()[0]@.take(
                    min_len(old(self).spec_chunks()[0]@.len() as int, 0xFFFF),
                )
            },
    {
        self.check_well_formed();
        let ghost first = if self.spec_chunks().len() > 0 {
            self.spec_chunks()[0]@
        } else {
            Seq::<u8>::empty()
        };
        let aa = self.pop_front();
        match aa {
            None => None,
            Some(aa) => {
                let len = aa.len();
                if len > MAX_FRAME {
                    let rest = aa.sliced(MAX_FRAME..len);
                    let ghost tail = self@;
                    self.push_front(rest);
                    let front = aa.into_sliced(0..MAX_FRAME);
                    assert(front@ + self@ =~= old(self)@);
                    assert(front@ =~= first.take(0xFFFF));
                    Some(front)
                } else {
                    assert(aa@ =~= first.take(len as int));
                    Some(aa)
                }
            },
        }
    }

    /// Whether the body has no more data.
    pub fn is_end_stream(&self) -> (res: bool)
        ensures
            res == (self@.len() == 0),
    {
        self.is_empty()
    }

    /// The exact number of bytes the body still holds.
    pub fn exact_size_hint(&self) -> (res: u64)
        requires
            self@.len() <= u64::MAX,
        ensures
            res == self@.len(),
    {
        self.len() as u64
    }
}

#[verifier::external_type_specification]
#[verifier::external_body]
pub struct ExHeaderValue(http::HeaderValue);

#[verifier::external_type_specification]
#[verifier::external_body]
pub struct ExInvalidHeaderValue(http::header::InvalidHeaderValue);

/// The bytes that a header value holds.
pub uninterp spec fn header_value_content(h: http::HeaderValue) -> Seq<u8>;

/// A byte that may stand in a header value: tab, or 32 and above but for 127.
pub open spec fn is_header_value_byte(b: u8) -> bool {
    (b >= 32 && b != 127) || b == 9
}

/// A header value over the bytes of a `Bytes` (`HeaderValue::from_maybe_shared`),
/// which checks that every byte may stand in a header value.
#[verifier::external_body]
fn header_value_from_bytes(b: bytes::Bytes) -> (res: Result<
    http::HeaderValue,
    http::header::InvalidHeaderValue,
>)
    ensures
        res is Ok <==> forall|i: int|
            0 <= i < bytes_content(b).len() ==> is_header_value_byte(#[trigger] bytes_content(b)[i]),
        res matches Ok(h) ==> header_value_content(h) == bytes_content(b),
{
    http::HeaderValue::from_maybe_shared(b)
}

/// The bytes could not stand in an HTTP header value.
#[derive(Debug, Clone, Copy, PartialEq, Eq)]
pub struct HeaderValueError;

impl<'a> ByteData<'a> {
    /// Turns the bytes into an HTTP header value.
    ///
    /// # Errors
    ///
    /// Fails where a byte may not stand in a header value.
    pub fn into_header_value(self) -> (res: Result<http::HeaderValue, HeaderValueError>)
        ensures
            res is Ok <==> forall|i: int|
                0 <= i < self@.len() ==> is_header_value_byte(#[trigger] self@[i]),
            res matches Ok(h) ==> header_value_content(h) == self@,
    {
        match header_value_from_bytes(self.into_bytes()) {
            Ok(h) => Ok(h),
            Err(_) => Err(HeaderValueError),
        }
    }
}

} // verus!
