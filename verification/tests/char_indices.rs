use bytedata::{Utf8CharError, Utf8CharIndices};

#[test]
fn utf8_char_indices() {
    let data = "Hello, 世界!";
    let data = data.as_bytes();
    let mut iter = Utf8CharIndices::new(data);
    assert_eq!(iter.size_hint(), (4, 14));
    assert_eq!(iter.next(), Some(Ok((0, 'H'))));
    assert_eq!(iter.size_hint(), (4, 13));
    assert_eq!(iter.next(), Some(Ok((1, 'e'))));
    assert_eq!(iter.size_hint(), (3, 12));
    assert_eq!(iter.next(), Some(Ok((2, 'l'))));
    assert_eq!(iter.next(), Some(Ok((3, 'l'))));
    assert_eq!(iter.next(), Some(Ok((4, 'o'))));
    assert_eq!(iter.next(), Some(Ok((5, ','))));
    assert_eq!(iter.next(), Some(Ok((6, ' '))));
    assert_eq!(iter.next(), Some(Ok((7, '世'))));
    assert_eq!(iter.next(), Some(Ok((10, '界'))));
    assert_eq!(iter.next(), Some(Ok((13, '!'))));
    assert_eq!(iter.next(), None);
    assert_eq!(iter.size_hint(), (0, 0));
}

#[test]
fn utf8_char_indices_error() {
    let data = b"Hello, \xFF\xF0\x9F\x98\x8A!";
    let data = data.as_slice();
    let mut iter = Utf8CharIndices::new(data);
    assert_eq!(iter.size_hint(), (4, 13));
    assert_eq!(iter.next(), Some(Ok((0, 'H'))));
    assert_eq!(iter.next(), Some(Ok((1, 'e'))));
    assert_eq!(iter.next(), Some(Ok((2, 'l'))));
    assert_eq!(iter.next(), Some(Ok((3, 'l'))));
    assert_eq!(iter.next(), Some(Ok((4, 'o'))));
    assert_eq!(iter.next(), Some(Ok((5, ','))));
    assert_eq!(iter.next(), Some(Ok((6, ' '))));
    assert_eq!(
        iter.next(),
        Some(Err(Utf8CharError {
            valid_up_to: 7,
            error_len: 1
        }))
    );
    assert_eq!(iter.next(), Some(Ok((8, '😊'))));
    assert_eq!(iter.next(), Some(Ok((12, '!'))));
    assert_eq!(iter.next(), None);
    assert_eq!(iter.size_hint(), (0, 0));
}

#[test]
fn utf8_char_indices_empty() {
    let data = b"".as_slice();
    let mut iter = Utf8CharIndices::new(data);
    assert_eq!(iter.size_hint(), (0, 0));
    assert_eq!(iter.next(), None);
    assert_eq!(iter.size_hint(), (0, 0));
}

#[test]
fn overlong_and_surrogate_forms_are_errors() {
    for bad in [&b"\xC0\x80"[..], b"\xC1\xBF", b"\xE0\x80\x80", b"\xE0\x9F\xBF", b"\xF0\x80\x80\x80", b"\xF0\x8F\xBF\xBF"] {
        let it = Utf8CharIndices::new(bad);
        assert!(it.next_const().is_err(), "{bad:?} must be refused");
        assert!(core::str::from_utf8(bad).is_err());
    }
    // The smallest value of each width is accepted.
    for good in ["\u{80}", "\u{800}", "\u{10000}", "\u{10FFFF}"] {
        let it = Utf8CharIndices::new(good.as_bytes());
        match it.next_const() {
            Ok((rest, pos, c)) => {
                assert_eq!(pos, 0);
                assert_eq!(c.to_string(), good);
                assert!(rest.remaining().is_empty());
            }
            Err(_) => panic!("{good:?} must decode"),
        }
    }
}
