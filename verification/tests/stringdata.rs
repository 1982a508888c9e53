use std::borrow::Cow;

use bytedata::{ByteData, SharedBytes, StringData};

#[test]
fn text_constructors() {
    let s = StringData::from_static("hello");
    assert_eq!(s.as_str(), "hello");
    assert_eq!(s.len(), 5);
    assert!(!s.is_empty());
    assert!(StringData::empty().is_empty());
    let s = StringData::from_borrowed("borrowed text, long enough");
    assert_eq!(s.as_borrowed(), Some("borrowed text, long enough"));
    let s = StringData::from_concat(&["ab", "", "cd", "é"]);
    assert_eq!(s.as_str(), "abcdé");
    let s = StringData::from_owned(String::from("owned text"));
    assert_eq!(s.as_str(), "owned text");
    let s = StringData::from_cow(Cow::Owned(String::from("cow")));
    assert_eq!(s.as_bytes(), b"cow");
    let s = StringData::from_cow_static(Cow::Borrowed("static cow"));
    assert_eq!(s.as_str(), "static cow");
    assert!(StringData::default().is_empty());
}

#[test]
fn text_validation() {
    match StringData::try_from_bytedata(ByteData::from_borrowed(b"caf\xC3\xA9")) {
        Ok(s) => assert_eq!(s.as_str(), "café"),
        Err(_) => panic!("valid UTF-8 was refused"),
    }
    match StringData::try_from_bytedata(ByteData::from_borrowed(b"caf\xC3")) {
        Ok(_) => panic!("invalid UTF-8 was accepted"),
        Err(d) => assert_eq!(d.as_slice(), b"caf\xC3"),
    }
    match StringData::try_from_shared(SharedBytes::from_slice(b"\xFF")) {
        Ok(_) => panic!("invalid UTF-8 was accepted"),
        Err(b) => assert_eq!(b.as_slice(), b"\xFF"),
    }
    match StringData::try_from_shared(SharedBytes::from_slice("ß".as_bytes())) {
        Ok(s) => assert_eq!(s.as_str(), "ß"),
        Err(_) => panic!("valid UTF-8 was refused"),
    }
}

#[test]
fn text_comparisons() {
    let s = StringData::from_static("hello world");
    assert!(s.eq_str("hello world"));
    assert!(s.eq_slice(b"hello world"));
    assert!(s.eq_const(&StringData::from_owned(String::from("hello world"))));
    assert!(s.starts_with("hello"));
    assert!(s.ends_with("world"));
    assert!(!s.ends_with("hello"));
    assert!(s == StringData::from("hello world"));
}

#[test]
fn text_trimming() {
    let s = StringData::from_static(" \t hello world \n ");
    assert_eq!(s.trim_start().as_str(), "hello world \n ");
    assert_eq!(s.trim_end().as_str(), " \t hello world");
    assert_eq!(s.trim().as_str(), "hello world");
    assert_eq!(StringData::from_static("   ").trim().as_str(), "");
    assert_eq!(StringData::from_static("\u{3000}x\u{3000}").trim().as_str(), "x");
}

#[test]
fn text_slicing_and_taking() {
    let s = StringData::from_static("héllo wörld");
    assert_eq!(s.sliced(0..3).as_str(), "hé");
    let mut t = s.clone();
    t.make_sliced(7..13);
    assert_eq!(t.as_str(), "wörld");
    assert_eq!(t.into_sliced(1..3).as_str(), "ö");
    let mut w = StringData::from_static("abc123");
    let letters = w.take_while(|c: char| c.is_ascii_alphabetic());
    assert_eq!(letters.as_str(), "abc");
    assert_eq!(w.as_str(), "123");
    let mut lines = StringData::from_static("one\ntwo\nthree");
    assert_eq!(lines.take_line().as_str(), "one\n");
    assert_eq!(lines.take_line().as_str(), "two\n");
    assert_eq!(lines.take_line().as_str(), "three");
    assert!(lines.is_empty());
    let (a, b) = StringData::from_static("key=value").split_at(3);
    assert_eq!(a.as_str(), "key");
    assert_eq!(b.as_str(), "=value");
    match StringData::from_static("a, b").split_once_on(", ") {
        Ok((a, b)) => {
            assert_eq!(a.as_str(), "a");
            assert_eq!(b.as_str(), ", b");
        }
        Err(_) => panic!("the needle occurs"),
    }
}

#[test]
fn text_iteration_and_sharing() {
    let s = StringData::from_static("añb");
    let chars: Vec<char> = s.iter().collect();
    assert_eq!(chars, vec!['a', 'ñ', 'b']);
    let mut it = s.clone();
    assert_eq!(it.next(), Some('a'));
    assert_eq!(it.next(), Some('ñ'));
    assert_eq!(it.next(), Some('b'));
    assert_eq!(it.next(), None);
    let shared = StringData::from_borrowed("some borrowed text to share").into_shared();
    assert_eq!(shared.as_borrowed(), None);
    assert_eq!(shared.as_str(), "some borrowed text to share");
    let range = StringData::from_borrowed("some borrowed text to share").into_shared_range(5..13);
    assert_eq!(range.as_str(), "borrowed");
    let mut parts = StringData::from_static("x").split_on(",");
    assert_eq!(parts.next().unwrap().as_str(), "x");
    assert!(parts.next().is_none());
    let stat = StringData::from_borrowed("a static borrowed text").statically_borrowed();
    assert_eq!(stat.as_str(), "a static borrowed text");
}

#[test]
fn text_conversions() {
    let s = StringData::from_static("convert");
    let d: ByteData<'_> = ByteData::from(s.clone());
    assert_eq!(d.as_slice(), b"convert");
    assert_eq!(String::from(s.clone()), "convert");
    assert_eq!(Vec::<u8>::from(s.clone()), b"convert");
    assert_eq!(s.as_bytedata().as_slice(), b"convert");
    assert_eq!(s.into_bytedata().as_slice(), b"convert");
    assert_eq!(StringData::from(String::from("from string")).as_str(), "from string");
}

#[test]
fn text_split_drops_separators() {
    let mut parts = StringData::from_static("a, b, , c").split_on(", ");
    let mut out = Vec::new();
    while let Some(p) = parts.next() {
        out.push(p.as_str().to_string());
    }
    assert_eq!(out, vec!["a", "b", "", "c"]);
}

#[test]
fn text_split_matches_std_on_nonempty_text() {
    let cases = [("a,b", ","), ("a,", ","), (",a", ","), (",", ","), (",,", ","), ("é→é", "→"), ("abc", "x")];
    for (text, sep) in cases {
        let mut parts = StringData::from_static(text).split_on(sep);
        let mut out = Vec::new();
        while let Some(p) = parts.next() {
            out.push(p.as_str().to_string());
        }
        let expected: Vec<String> = text.split(sep).map(|p| p.to_string()).collect();
        assert_eq!(out, expected, "{text:?} on {sep:?}");
    }
}

#[test]
fn long_static_text_stays_static_when_shared() {
    let s: &'static str = "a static text that is longer than any inline chunk";
    let shared = StringData::from_static(s).into_shared();
    assert_eq!(shared.as_str(), s);
    let d = bytedata::ByteData::from_static(s.as_bytes()).into_shared_range(2..40);
    assert_eq!(d.as_static(), Some(&s.as_bytes()[2..40]));
}

#[test]
fn trimming_matches_std_whitespace() {
    for v in 0u32..0x3100 {
        if let Some(c) = char::from_u32(v) {
            let text = format!("{c}x{c}");
            let s = StringData::from_owned(text.clone());
            assert_eq!(s.trim().as_str(), text.trim(), "char {v:#x}");
        }
    }
}
