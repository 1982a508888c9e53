use bytedata::shared_bytes_builder::next_power_of_two;
use bytedata::{SharedBytes, SharedBytesBuilder, SharedStrBuilder};

#[test]
fn shared_bytes_slicing() {
    let s = SharedBytes::from_slice(b"hello shared world");
    assert_eq!(s.len(), 18);
    assert!(!s.is_empty());
    assert!(s.is_unique());
    let t = s.clone();
    assert!(!s.is_unique());
    assert!(t.eq_const(&s));
    assert!(s.starts_with(b"hello"));
    assert!(s.ends_with(b"world"));
    assert!(s.eq_slice(b"hello shared world"));
    assert_eq!(s.get(6), b's');
    assert_eq!(s.sliced(6, 6).as_slice(), b"shared");
    assert_eq!(s.sliced_range(13..18).as_slice(), b"world");
    let mut u = s.clone();
    u.make_sliced(0, 5);
    assert_eq!(u.as_slice(), b"hello");
    let mut v = s.clone();
    v.make_sliced_range(6..12);
    assert_eq!(v.as_slice(), b"shared");
    assert_eq!(s.clone().into_sliced(1, 4).as_slice(), b"ello");
    assert_eq!(s.clone().into_sliced_range(2..4).as_slice(), b"ll");
    assert!(SharedBytes::empty().is_empty());
    assert!(SharedBytes::default().is_empty());
    assert!(SharedBytes::from_vec(b"vec".to_vec()) == SharedBytes::from_slice(b"vec"));
    let aligned = SharedBytes::from_slice_aligned(b"aligned", 64);
    assert_eq!(aligned.as_slice(), b"aligned");
}

#[test]
fn shared_bytes_builder_growth() {
    let mut b = SharedBytesBuilder::new();
    assert!(b.is_empty());
    assert_eq!(b.capacity(), 0);
    b.extend_from_slice(b"hello");
    assert_eq!(b.len(), 5);
    assert!(b.capacity() >= 5);
    b.reserve(100);
    assert!(b.capacity() >= 105);
    assert_eq!(b.as_slice(), b"hello");
    b.truncate(2);
    assert_eq!(b.as_slice(), b"he");
    b.truncate(10);
    assert_eq!(b.as_slice(), b"he");
    b.clear();
    assert!(b.is_empty());
    b.extend_from_slice(b"built");
    let s = b.build();
    assert_eq!(s.as_slice(), b"built");
    let back = s.into_builder();
    assert_eq!(back.as_slice(), b"built");
    let c = SharedBytesBuilder::with_capacity(40);
    assert!(c.capacity() >= 40);
    let a = SharedBytesBuilder::with_alignment(32);
    assert_eq!(a.alignment(), 32);
    let d = SharedBytesBuilder::with_aligned_capacity(10, 16);
    assert!(d.capacity() >= 10);
    assert_eq!(SharedBytesBuilder::from(SharedBytes::from_slice(b"x")).as_slice(), b"x");
    assert_eq!(SharedBytes::from(SharedBytesBuilder::default()).len(), 0);
}

#[test]
fn powers_of_two() {
    assert_eq!(next_power_of_two(0), 1);
    assert_eq!(next_power_of_two(1), 1);
    assert_eq!(next_power_of_two(5), 8);
    assert_eq!(next_power_of_two(64), 64);
    assert_eq!(next_power_of_two(65), 128);
}

#[test]
fn shared_str_builder_text() {
    let mut b = SharedStrBuilder::new();
    assert!(b.is_empty());
    b.push('h');
    b.push('é');
    b.push_str("llo");
    assert_eq!(b.len(), 6);
    assert_eq!(b.as_str(), "héllo");
    assert_eq!(b.as_bytes(), "héllo".as_bytes());
    b.truncate(3);
    assert_eq!(b.as_str(), "hé");
    b.reserve(10);
    assert!(b.capacity() >= 13);
    let s = b.build_str();
    assert_eq!(s.as_str(), "hé");
    let mut c = SharedStrBuilder::with_capacity(8);
    c.push_str("abc");
    c.clear();
    assert!(c.is_empty());
    c.push_str("xyz");
    assert_eq!(c.into_shared_bytes_builder().as_slice(), b"xyz");
    assert!(SharedStrBuilder::default().build().is_empty());
}

#[test]
fn str_builder_reserve_makes_room() {
    let mut b = SharedStrBuilder::new();
    b.push_str("héllo");
    b.reserve(100);
    assert!(b.capacity() >= b.len() + 100);
    assert_eq!(b.len(), "héllo".len());
    let cap = b.capacity();
    b.reserve(0);
    assert_eq!(b.capacity(), cap);
}

#[test]
fn builder_bytes_change_in_place() {
    let mut b = SharedBytesBuilder::new();
    b.extend_from_slice(b"abc");
    b.as_slice_mut()[1] = b'X';
    assert_eq!(b.as_slice(), b"aXc");
    assert_eq!(b.len(), 3);
    assert_eq!(b.build().as_slice(), b"aXc");
    let mut empty = SharedBytesBuilder::new();
    assert!(empty.as_slice_mut().is_empty());
}
