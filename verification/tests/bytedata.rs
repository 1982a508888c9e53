use std::borrow::Cow;

use bytedata::{ByteData, SharedBytes};

#[test]
fn static_equals_borrowed() {
    let stat = ByteData::from_static(b"hello world");
    let borrowed = ByteData::from_borrowed(b"hello world");
    assert!(stat == borrowed);
    assert_eq!(stat.as_slice(), borrowed.as_slice());
}

#[test]
fn constructors_keep_bytes() {
    assert_eq!(ByteData::from_static(b"short").as_borrowed(), None);
    assert_eq!(
        ByteData::from_static(b"a longer static slice").as_static(),
        Some(&b"a longer static slice"[..])
    );
    assert_eq!(
        ByteData::from_borrowed(b"a longer borrowed slice").as_borrowed(),
        Some(&b"a longer borrowed slice"[..])
    );
    assert_eq!(ByteData::from_owned(b"a longer owned vector".to_vec()).as_slice(), b"a longer owned vector");
    assert_eq!(ByteData::from_owned(b"tiny".to_vec()).as_slice(), b"tiny");
    assert_eq!(ByteData::from_external(b"an external vector!".to_vec()).as_slice(), b"an external vector!");
    assert_eq!(ByteData::from_byte(7).as_slice(), &[7]);
    assert_eq!(ByteData::from_chunk(&[1u8, 2, 3]).as_slice(), &[1, 2, 3]);
    assert_eq!(ByteData::from_chunk_slice(b"abc").as_slice(), b"abc");
    assert!(ByteData::empty().is_empty());
    let cow: Cow<'_, [u8]> = Cow::Owned(b"owned".to_vec());
    assert_eq!(ByteData::from_cow(cow).as_slice(), b"owned");
    let cow: Cow<'static, [u8]> = Cow::Borrowed(b"borrowed static data");
    assert_eq!(ByteData::from_cow_static(cow).as_static(), Some(&b"borrowed static data"[..]));
    let shared = SharedBytes::from_slice(b"shared bytes here");
    assert_eq!(ByteData::from_shared(shared).as_slice(), b"shared bytes here");
}

#[test]
fn comparisons_and_access() {
    let d = ByteData::from_borrowed(b"hello world, again");
    assert_eq!(d.len(), 18);
    assert_eq!(d.get(4), b'o');
    assert!(d.starts_with(b"hello"));
    assert!(!d.starts_with(b"world"));
    assert!(d.ends_with(b"again"));
    assert!(d.eq_slice(b"hello world, again"));
    assert!(!d.eq_slice(b"hello"));
    assert!(d.eq_const(&ByteData::from_owned(b"hello world, again".to_vec())));
    assert_eq!(d.as_borrowed(), Some(&b"hello world, again"[..]));
    assert_eq!(d.as_static(), None);
}

#[test]
fn slicing() {
    let d = ByteData::from_borrowed(b"0123456789abcdefghij");
    assert_eq!(d.sliced(2..5).as_slice(), b"234");
    assert_eq!(d.sliced(0..0).as_slice(), b"");
    let mut e = d.clone();
    e.make_sliced(10..20);
    assert_eq!(e.as_slice(), b"abcdefghij");
    assert_eq!(e.into_sliced(1..3).as_slice(), b"bc");
    let shared = d.clone().into_shared();
    assert_eq!(shared.as_borrowed(), None);
    assert_eq!(shared.as_slice(), d.as_slice());
    let range = d.clone().into_shared_range(5..15);
    assert_eq!(range.as_slice(), b"56789abcde");
    let sb = d.into_shared_bytes();
    assert_eq!(sb.as_slice(), b"0123456789abcdefghij");
}

#[test]
fn taking_and_splitting() {
    let mut d = ByteData::from_borrowed(b"key=value");
    let key = d.take_bytes(3);
    assert_eq!(key.as_slice(), b"key");
    assert_eq!(d.as_slice(), b"=value");
    let mut digits = ByteData::from_borrowed(b"12345abc");
    let num = digits.take_while(|b: u8| b.is_ascii_digit());
    assert_eq!(num.as_slice(), b"12345");
    assert_eq!(digits.as_slice(), b"abc");
    let (a, b) = ByteData::from_borrowed(b"left|right").split_at(4);
    assert_eq!(a.as_slice(), b"left");
    assert_eq!(b.as_slice(), b"|right");
    match ByteData::from_borrowed(b"a::b::c").split_once_on(b"::") {
        Ok((a, b)) => {
            assert_eq!(a.as_slice(), b"a");
            assert_eq!(b.as_slice(), b"::b::c");
        }
        Err(_) => panic!("the needle occurs"),
    }
    match ByteData::from_borrowed(b"abc").split_once_on(b";") {
        Ok(_) => panic!("the needle does not occur"),
        Err(e) => assert_eq!(e.as_slice(), b"abc"),
    }
}

#[test]
fn split_on_parts() {
    let mut it = ByteData::from_borrowed(b"abc").split_on(b",");
    assert_eq!(it.size_hint(), (1, None));
    assert_eq!(it.next().unwrap().as_slice(), b"abc");
    assert!(it.next().is_none());
    assert_eq!(it.size_hint(), (0, Some(0)));
    let mut it = ByteData::from_borrowed(b"a,b").split_on(b",");
    assert_eq!(it.next().unwrap().as_slice(), b"a");
    assert_eq!(it.next().unwrap().as_slice(), b"b");
    assert!(it.next().is_none());
    let mut it = ByteData::from_borrowed(b",b").split_on(b",");
    assert_eq!(it.next().unwrap().as_slice(), b"");
    assert_eq!(it.next().unwrap().as_slice(), b"b");
    assert!(it.next().is_none());
    let mut it = ByteData::from_borrowed(b"a,,bc,").split_on(b",");
    let mut parts: Vec<Vec<u8>> = Vec::new();
    while let Some(p) = it.next() {
        parts.push(p.as_slice().to_vec());
    }
    assert_eq!(parts, vec![b"a".to_vec(), b"".to_vec(), b"bc".to_vec(), b"".to_vec()]);
    let mut it = ByteData::from_borrowed(b"a,").split_on(b",");
    assert_eq!(it.next().unwrap().as_slice(), b"a");
    assert_eq!(it.size_hint(), (1, Some(1)));
    assert_eq!(it.next().unwrap().as_slice(), b"");
    assert_eq!(it.size_hint(), (0, Some(0)));
    assert!(it.next().is_none());
    let mut it = ByteData::from_borrowed(b",").split_on(b",");
    assert_eq!(it.next().unwrap().as_slice(), b"");
    assert_eq!(it.next().unwrap().as_slice(), b"");
    assert!(it.next().is_none());
    let mut it = ByteData::from_borrowed(b"a::b").split_on(b"::");
    assert_eq!(it.next().unwrap().as_slice(), b"a");
    assert_eq!(it.next().unwrap().as_slice(), b"b");
    assert!(it.next().is_none());
    let mut it = ByteData::from_borrowed(b"ab").split_on(b"");
    assert_eq!(it.next().unwrap().as_slice(), b"ab");
    assert!(it.next().is_none());
}

#[test]
fn conversions() {
    let v: Vec<u8> = Vec::from(ByteData::from_borrowed(b"to a vector please"));
    assert_eq!(v, b"to a vector please");
    let d = ByteData::from(b"from a vector of bytes".to_vec());
    assert_eq!(d.as_slice(), b"from a vector of bytes");
    let d = ByteData::from(&b"slice"[..]);
    assert_eq!(d.as_slice(), b"slice");
    let d = ByteData::from(SharedBytes::from_slice(b"shared"));
    assert_eq!(d.as_slice(), b"shared");
    assert!(ByteData::default().is_empty());
    let stat = ByteData::from_borrowed(b"static borrowed bytes").statically_borrowed();
    assert_eq!(stat.as_static(), Some(&b"static borrowed bytes"[..]));
    assert_eq!(ByteData::from_owned(b"an owned vector, back".to_vec()).into_vec(), b"an owned vector, back");
}

#[test]
fn as_static_only_for_static_slices() {
    let long: &'static [u8] = b"a static slice longer than an inline chunk";
    assert_eq!(ByteData::from_static(long).as_static(), Some(long));
    let owned = long.to_vec();
    assert_eq!(ByteData::from_borrowed(&owned).as_static(), None);
    assert_eq!(ByteData::from_static(b"short").as_static(), None);
}
