//! Interning of byte data: keeping one shared copy of equal bytes, so that
//! equal values share one buffer.
use std::sync::Arc;
use vstd::prelude::*;

use crate::bytedata::ByteData;
use crate::shared_bytes::SharedBytes;
use crate::slices::slice_to_vec;
use crate::stringdata::StringData;

verus! {

#[verifier::external_type_specification]
#[verifier::external_body]
#[verifier::reject_recursive_types(K)]
#[verifier::reject_recursive_types(V)]
#[verifier::reject_recursive_types(S)]
pub struct ExDashMap<K, V, S>(dashmap::DashMap<K, V, S>);

/// A new, empty concurrent map (`DashMap::new`).
#[verifier::external_body]
fn new_map() -> (res: dashmap::DashMap<Vec<u8>, SharedBytes>) {
    dashmap::DashMap::new()
}

/// The value that the map holds for the key, if any (`DashMap::get`), cloned.
/// Other holders of the map may change it at any time, so nothing is promised
/// of what comes back.
#[verifier::external_body]
fn map_get(map: &dashmap::DashMap<Vec<u8>, SharedBytes>, key: &[u8]) -> (res: Option<SharedBytes>) {
    match map.get(key) {
        Some(entry) => Some(entry.value().clone()),
        None => None,
    }
}

/// The value that the map keeps for the key after inserting `value` where the
/// key was missing (`Entry::or_insert`), cloned. Other holders of the map may
/// have inserted first, so nothing is promised of what comes back.
#[verifier::external_body]
fn map_get_or_insert(
    map: &dashmap::DashMap<Vec<u8>, SharedBytes>,
    key: Vec<u8>,
    value: SharedBytes,
) -> (res: SharedBytes) {
    map.entry(key).or_insert(value).value().clone()
}

/// Removes every entry of the map (`DashMap::clear`).
#[verifier::external_body]
fn map_clear(map: &dashmap::DashMap<Vec<u8>, SharedBytes>) {
    map.clear()
}

/// Interning of byte data.
pub trait ByteInterning<'a> {
    /// Interns the given bytes by the rules of the interning. The bytes handed
    /// back, interned or refused, are those of the input.
    fn intern<'b>(&self, value: ByteData<'b>) -> (res: Result<ByteData<'a>, ByteData<'b>>)
        requires
            value@.len() + 12 <= 0xFFFF_FFFF,
        ensures
            res matches Ok(v) ==> v@ == value@,
            res matches Err(v) ==> v@ == value@,
    ;

    /// Interns the given text by the rules of the interning.
    fn intern_str<'b>(&self, value: StringData<'b>) -> (res: Result<StringData<'a>, StringData<'b>>)
        requires
            value@.len() + 12 <= 0xFFFF_FFFF,
        ensures
            res matches Ok(v) ==> v@ == value@,
            res matches Err(v) ==> v@ == value@,
    {
        value.check_valid();
        match self.intern(value.into_bytedata()) {
            Ok(v) => Ok(StringData::from_bytedata_unchecked(v)),
            Err(v) => Err(StringData::from_bytedata_unchecked(v)),
        }
    }

    /// Interns the given bytes whatever the rules of the interning say.
    fn intern_always<'b>(&self, value: ByteData<'b>) -> (res: ByteData<'a>)
        requires
            value@.len() + 12 <= 0xFFFF_FFFF,
        ensures
            res@ == value@,
    ;

    /// Interns the given text whatever the rules of the interning say.
    fn intern_always_str<'b>(&self, value: StringData<'b>) -> (res: StringData<'a>)
        requires
            value@.len() + 12 <= 0xFFFF_FFFF,
        ensures
            res@ == value@,
    {
        value.check_valid();
        StringData::from_bytedata_unchecked(self.intern_always(value.into_bytedata()))
    }

    /// The interned copy of the given bytes, where there is one; else the input.
    fn get<'b>(&self, value: ByteData<'b>) -> (res: Result<ByteData<'a>, ByteData<'b>>)
        ensures
            res matches Ok(v) ==> v@ == value@,
            res matches Err(v) ==> v@ == value@,
    ;

    /// The interned copy of the given text, where there is one; else the input.
    fn get_str<'b>(&self, value: StringData<'b>) -> (res: Result<StringData<'a>, StringData<'b>>)
        ensures
            res matches Ok(v) ==> v@ == value@,
            res matches Err(v) ==> v@ == value@,
    {
        value.check_valid();
        match self.get(value.into_bytedata()) {
            Ok(v) => Ok(StringData::from_bytedata_unchecked(v)),
            Err(v) => Err(StringData::from_bytedata_unchecked(v)),
        }
    }
}

/// An interning set that keeps every value interned until it is cleared.
/// Clones share the set.
pub struct StaticInterning {
    max_len: usize,
    map: Arc<dashmap::DashMap<Vec<u8>, SharedBytes>>,
}

impl StaticInterning {
    /// The longest bytes that `intern` takes into the set.
    pub closed spec fn spec_max_len(&self) -> usize {
        self.max_len
    }

    /// Creates a new, empty interning set for bytes of up to `max_len` bytes.
    pub fn new(max_len: usize) -> (res: Self)
        ensures
            res.spec_max_len() == max_len,
    {
        StaticInterning { max_len, map: Arc::new(new_map()) }
    }

    /// Creates a new, empty interning set for bytes of up to `max_len` bytes.
    pub fn new_const(max_len: usize) -> (res: Self)
        ensures
            res.spec_max_len() == max_len,
    {
        Self::new(max_len)
    }

    /// Clears the interning set.
    pub fn clear(&self) {
        map_clear(&self.map)
    }
}

impl Default for StaticInterning {
    fn default() -> (res: Self)
        ensures
            res.spec_max_len() == 128,
    {
        Self::new(128)
    }
}

impl Clone for StaticInterning {
    fn clone(&self) -> (res: Self)
        ensures
            res.spec_max_len() == self.spec_max_len(),
    {
        StaticInterning { max_len: self.max_len, map: self.map.clone() }
    }
}

impl ByteInterning<'static> for StaticInterning {
    /// Bytes that fit in a chunk are kept inline rather than interned; bytes
    /// longer than the set's limit are refused; the rest are interned.
    fn intern<'b>(&self, value: ByteData<'b>) -> (res: Result<ByteData<'static>, ByteData<'b>>)
        ensures
            value@.len() <= 14 ==> res is Ok,
            value@.len() > 14 && value@.len() > self.spec_max_len() ==> res is Err,
            14 < value@.len() <= self.spec_max_len() ==> res is Ok,
    {
        let len = value.len();
        if len <= 14 {
            return Ok(value.into_shared());
        }
        if len > self.max_len {
            return Err(value);
        }
        Ok(self.intern_always(value))
    }

    fn intern_always<'b>(&self, value: ByteData<'b>) -> (res: ByteData<'static>) {
        match map_get(&self.map, value.as_slice()) {
            Some(hit) => {
                if hit.eq_slice(value.as_slice()) {
                    return ByteData::from_shared(hit);
                }
            },
            None => {},
        }
        let shared = value.into_shared_bytes();
        let key = slice_to_vec(shared.as_slice());
        let stored = map_get_or_insert(&self.map, key, shared.clone());
        if stored.eq_const(&shared) {
            ByteData::from_shared(stored)
        } else {
            ByteData::from_shared(shared)
        }
    }

    fn get<'b>(&self, value: ByteData<'b>) -> (res: Result<ByteData<'static>, ByteData<'b>>) {
        match map_get(&self.map, value.as_slice()) {
            Some(hit) => {
                if hit.eq_slice(value.as_slice()) {
                    Ok(ByteData::from_shared(hit))
                } else {
                    Err(value)
                }
            },
            None => Err(value),
        }
    }
}

} // verus!
