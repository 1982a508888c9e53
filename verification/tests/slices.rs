use bytedata::{
    build_const_bytes, const_ends_with, const_eq, const_find_bytes, const_or_bytes, const_or_str,
    const_slice, const_slice_str, const_split_once_byte, const_split_once_bytes,
    const_split_once_str, const_starts_with, ByteChunk, StrSliceResult,
};

#[test]
fn const_comparisons() {
    assert!(const_eq(b"abc", b"abc"));
    assert!(!const_eq(b"abc", b"abd"));
    assert!(!const_eq(b"abc", b"ab"));
    assert!(const_starts_with(b"hello world", b"hello"));
    assert!(!const_starts_with(b"hello", b"hello world"));
    assert!(const_ends_with(b"hello world", b"world"));
    assert!(!const_ends_with(b"hello world", b"hello"));
    assert!(const_starts_with(b"abc", b""));
}

#[test]
fn const_slicing() {
    assert_eq!(const_slice(b"hello", 1..3), Some(&b"el"[..]));
    assert_eq!(const_slice(b"hello", 3..9), None);
    assert_eq!(const_slice(b"hello", 3..2), None);
    assert!(matches!(const_slice_str("hällo", 0..1), StrSliceResult::Success("h")));
    assert!(matches!(const_slice_str("hällo", 0..2), StrSliceResult::InvalidUtf8));
    assert!(matches!(const_slice_str("hällo", 0..9), StrSliceResult::OutOfBounds));
    assert_eq!(const_slice_str("hällo", 1..3).unwrap(), "ä");
    assert!(const_slice_str("abc", 1..2).is_ok());
    assert!(const_slice_str("abc", 2..1).is_err());
    assert_eq!(const_slice_str("abc", 0..3).ok(), Some("abc"));
    assert!(matches!(const_slice_str("abc", 0..4).err(), Some(StrSliceResult::OutOfBounds)));
}

#[test]
fn const_defaults() {
    assert_eq!(const_or_str(Some("x"), "y"), "x");
    assert_eq!(const_or_str(None, "y"), "y");
    assert_eq!(const_or_bytes(Some(b"x"), b"y"), b"x");
    assert_eq!(const_or_bytes(None, b"y"), b"y");
}

#[test]
fn const_building_and_splitting() {
    let (data, len) = build_const_bytes([0xAA_u8; 8], &[b"ab", b"", b"cde"]);
    assert_eq!(len, 5);
    assert_eq!(&data[..5], b"abcde");
    assert_eq!(&data[5..], &[0xAA, 0xAA, 0xAA]);
    assert_eq!(
        const_split_once_byte(b"key=value=x", b'='),
        Some((&b"key"[..], &b"=value=x"[..]))
    );
    assert_eq!(const_split_once_byte(b"novalue", b'='), None);
    assert_eq!(const_find_bytes(b"abcabc", b"ca"), Some(2));
    assert_eq!(const_find_bytes(b"abcabc", b"x"), None);
    assert_eq!(const_find_bytes(b"abc", b""), Some(0));
    assert_eq!(
        const_split_once_bytes(b"a::b::c", b"::"),
        Some((&b"a"[..], &b"::b::c"[..]))
    );
    assert_eq!(const_split_once_str("a, b, c", ", "), Some(("a", ", b, c")));
    assert_eq!(const_split_once_str("abc", ";"), None);
}

#[test]
fn byte_chunk_operations() {
    let mut c = ByteChunk::from_slice(b"hello");
    assert_eq!(c.len(), 5);
    assert!(!c.is_empty());
    assert!(c.push(b'!'));
    assert_eq!(c.as_slice(), b"hello!");
    assert_eq!(c.sliced(1..3).as_slice(), b"el");
    c.make_sliced(2..6);
    assert_eq!(c.as_slice(), b"llo!");
    let c2 = c.into_sliced(1..2);
    assert_eq!(c2.as_slice(), b"l");
    let mut full = ByteChunk::from_array(&[7u8; 14]);
    assert!(!full.push(1));
    assert_eq!(full.len(), 14);
    assert_eq!(ByteChunk::from_byte(9).as_slice(), &[9]);
    let mut w = ByteChunk::default();
    assert!(w.is_empty());
    assert!(w.write_str("abc").is_ok());
    assert!(w.write_str("defghijklmnopq").is_err());
    assert_eq!(w.as_slice(), b"abc");
    assert!(ByteChunk::from_slice(b"abc") == w);
}
