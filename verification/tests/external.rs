use bytedata::ByteData;

/// Check if zero copy works for `Vec<u8>`.
#[test]
fn test_bytedata_ext_vec() {
    let mut data = Vec::<u8>::with_capacity(64);
    for i in 0..48 {
        data.push(i);
    }
    let data_copy = data.clone();
    let ptr = data.as_slice().as_ptr();
    let mut data = ByteData::from_external(data);
    data.make_sliced(0..32);
    assert_eq!(data.len(), 32);
    let data = Vec::<u8>::from(data);
    assert_eq!(data, &data_copy[..32]);
    let check_ptr = data.as_slice().as_ptr();
    assert!(
        core::ptr::addr_eq(ptr, check_ptr),
        "pointers should be equal"
    );
}

#[test]
fn external_boxed_and_string_buffers() {
    let boxed: Box<[u8]> = b"a boxed slice of bytes".to_vec().into_boxed_slice();
    let ptr = boxed.as_ptr();
    let d = ByteData::from_external(boxed);
    assert_eq!(d.as_slice(), b"a boxed slice of bytes");
    assert!(core::ptr::addr_eq(ptr, d.as_slice().as_ptr()));
    let s = String::from("an owned string of text");
    let d = ByteData::from_external(s);
    assert_eq!(d.as_slice(), b"an owned string of text");
    let small = ByteData::from_external(String::from("tiny"));
    assert_eq!(small.as_slice(), b"tiny");
}

#[test]
fn external_boxed_str_and_shared_buffers() {
    let boxed: Box<str> = String::from("a boxed str of some length").into_boxed_str();
    let ptr = boxed.as_ptr();
    let d = ByteData::from_external(boxed);
    assert_eq!(d.as_slice(), b"a boxed str of some length");
    assert!(core::ptr::addr_eq(ptr, d.as_slice().as_ptr()));
    let shared: std::sync::Arc<[u8]> = std::sync::Arc::from(&b"a shared slice of bytes"[..]);
    let d = ByteData::from_external(shared.clone());
    assert_eq!(d.as_slice(), &shared[..]);
    let text: std::sync::Arc<str> = std::sync::Arc::from("a shared str of text");
    let d = ByteData::from_external(text);
    assert_eq!(d.as_slice(), b"a shared str of text");
}
