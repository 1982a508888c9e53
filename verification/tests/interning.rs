use bytedata::interning::{ByteInterning, StaticInterning};
use bytedata::{ByteData, StringData};

#[test]
fn test_static_interning_borrowed() {
    let interning = StaticInterning::new(32);
    let borrowed = ByteData::from_borrowed(b"Hello World, 1234567890!");
    let value = interning.intern(borrowed.clone()).ok().unwrap();
    assert!(
        !core::ptr::addr_eq(value.as_slice().as_ptr(), borrowed.as_slice().as_ptr()),
        "The interned value should be a copy."
    );
    assert!(value == borrowed, "The interned value should be equal to the input.");
    let value2 = interning.intern(borrowed.clone()).ok().unwrap();
    assert!(value2 == borrowed, "The interned value should be equal to the input.");
    assert!(
        core::ptr::addr_eq(value.as_slice().as_ptr(), value2.as_slice().as_ptr()),
        "The interned value should return the same copy."
    );
}

#[test]
fn test_static_interning_shared() {
    let interning = StaticInterning::new(32);
    let borrowed = ByteData::from_borrowed(b"Hello World, 1234567890!");
    let shared = borrowed.clone().into_shared();
    let value = interning.intern(shared.clone()).ok().unwrap();
    assert!(
        core::ptr::addr_eq(value.as_slice().as_ptr(), shared.as_slice().as_ptr()),
        "The interned value should return a shared instance."
    );
    assert!(value == borrowed, "The interned value should be equal to the input.");
    let value2 = interning.intern(borrowed.clone()).ok().unwrap();
    assert!(value2 == borrowed, "The interned value should be equal to the input.");
    assert!(
        core::ptr::addr_eq(value.as_slice().as_ptr(), value2.as_slice().as_ptr()),
        "The interned value should return the same copy."
    );
}

#[test]
fn interning_rules() {
    let interning = StaticInterning::new(20);
    let short = interning.intern(ByteData::from_borrowed(b"short")).ok().unwrap();
    assert_eq!(short.as_slice(), b"short");
    let long = ByteData::from_borrowed(b"this is longer than twenty bytes");
    let refused = match interning.intern(long.clone()) {
        Ok(_) => panic!("bytes over the limit were interned"),
        Err(v) => v,
    };
    assert!(refused == long);
    let forced = interning.intern_always(long.clone());
    assert!(forced == long);
    let found = interning.get(long.clone()).ok().unwrap();
    assert!(core::ptr::addr_eq(found.as_slice().as_ptr(), forced.as_slice().as_ptr()));
    assert!(interning.get(ByteData::from_borrowed(b"never interned, not here")).is_err());
    let copy = interning.clone();
    assert!(copy.get(long.clone()).is_ok());
    interning.clear();
    assert!(copy.get(long).is_err());
}

#[test]
fn interning_text() {
    let interning = StaticInterning::default();
    let text = StringData::from_borrowed("some text to intern, long");
    let a = interning.intern_str(text.clone()).ok().unwrap();
    let b = interning.intern_always_str(text.clone());
    assert_eq!(a.as_str(), "some text to intern, long");
    assert!(core::ptr::addr_eq(a.as_bytes().as_ptr(), b.as_bytes().as_ptr()));
    assert_eq!(interning.get_str(text).ok().unwrap().as_str(), "some text to intern, long");
}
