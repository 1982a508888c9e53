use arbitrary::Unstructured;
use bytedata::{ByteData, ByteQueue, SharedBytes, SharedBytesBuilder, StringData};

#[test]
fn arbitrary_from_empty_input() {
    let mut u = Unstructured::new(&[]);
    assert!(ByteData::arbitrary(&mut u).ok().unwrap().is_empty());
    assert!(StringData::arbitrary(&mut u).ok().unwrap().is_empty());
    assert!(SharedBytes::arbitrary(&mut u).ok().unwrap().is_empty());
    assert!(SharedBytesBuilder::arbitrary(&mut u).ok().unwrap().is_empty());
    assert!(ByteQueue::arbitrary(&mut u).ok().unwrap().is_empty());
    assert!(ByteData::arbitrary_take_rest(Unstructured::new(&[])).ok().unwrap().is_empty());
    assert!(StringData::arbitrary_take_rest(Unstructured::new(&[])).ok().unwrap().is_empty());
}

#[test]
fn arbitrary_bytes_come_from_the_input() {
    let data: Vec<u8> = (0u8..=200).collect();
    for first in 0u8..3 {
        let mut input = data.clone();
        input[0] = first;
        let mut u = Unstructured::new(&input);
        let d = ByteData::arbitrary(&mut u).ok().unwrap();
        assert!(d.len() + u.len() <= input.len());
        if !d.is_empty() {
            let pos = input.windows(d.len()).position(|w| w == d.as_slice());
            assert!(matches!(pos, Some(0) | Some(1)));
        }
        let u2 = Unstructured::new(&input);
        let d2 = ByteData::arbitrary_take_rest(u2).ok().unwrap();
        if first == 0 {
            assert_eq!(d2.as_slice(), &input[1..]);
        }
    }
}

#[test]
fn arbitrary_builder_takes_a_prefix() {
    let input: Vec<u8> = (10u8..60).collect();
    let mut u = Unstructured::new(&input);
    let b = SharedBytesBuilder::arbitrary(&mut u).ok().unwrap();
    assert_eq!(b.as_slice(), &input[..b.len()]);
    let all = SharedBytesBuilder::arbitrary_take_rest(Unstructured::new(&input)).ok().unwrap();
    assert_eq!(all.as_slice(), &input[..]);
}

#[test]
fn arbitrary_text_is_valid() {
    let input: Vec<u8> = (0u8..=255).cycle().take(600).collect();
    for first in 0u8..3 {
        let mut bytes = input.clone();
        bytes[0] = first;
        let mut u = Unstructured::new(&bytes);
        let s = StringData::arbitrary(&mut u).ok().unwrap();
        assert!(core::str::from_utf8(s.as_bytes()).is_ok());
        let t = StringData::arbitrary_take_rest(Unstructured::new(&bytes)).ok().unwrap();
        assert!(core::str::from_utf8(t.as_bytes()).is_ok());
        if first == 1 {
            assert!(t.len() <= 14);
        }
    }
}

#[test]
fn arbitrary_queue_holds_no_more_than_the_input() {
    let input: Vec<u8> = (0u8..=255).collect();
    let mut u = Unstructured::new(&input);
    let q = ByteQueue::arbitrary(&mut u).ok().unwrap();
    assert!(q.len() + u.len() <= input.len());
    let r = ByteQueue::arbitrary_take_rest(Unstructured::new(&input)).ok().unwrap();
    assert!(r.len() <= input.len());
}

#[test]
fn arbitrary_chunk_text_packs_characters() {
    let t = StringData::arbitrary_take_rest(Unstructured::new(&[1, 0x41, 0, 0, 0])).ok().unwrap();
    let mut expected = String::from("A");
    expected.push_str(&"\0".repeat(13));
    assert_eq!(t.as_str(), expected);
    let mut u = Unstructured::new(&[1, 1, 0xE9, 0, 0, 0, 0]);
    let s = StringData::arbitrary(&mut u).ok().unwrap();
    assert_eq!(s.as_str(), "é");
}

#[test]
fn arbitrary_builder_reads_its_length_from_the_end() {
    // Four bytes: the last one gives the length, 2 % 4, of bytes from the front.
    let input = [0x41u8, 0x42, 0x43, 0x02];
    let mut u = Unstructured::new(&input);
    let b = SharedBytesBuilder::arbitrary(&mut u).ok().unwrap();
    assert_eq!(b.as_slice(), b"AB");
    assert_eq!(u.len(), 1);
    let b = SharedBytesBuilder::arbitrary_take_rest(Unstructured::new(&input)).ok().unwrap();
    assert_eq!(b.as_slice(), &input[..]);
}

#[test]
fn arbitrary_queue_follows_the_input() {
    // A length byte at the end picks two chunks; each chunk is a pick byte
    // (0: borrowed), then bytes whose count comes from the end, then a bit
    // that places the chunk.
    let input = [0u8, 0x61, 0x62, 0x63, 0x00, 0x02, 0x05];
    let mut u = Unstructured::new(&input);
    let q = ByteQueue::arbitrary(&mut u).ok().unwrap();
    let mut expect = ByteQueue::new();
    let mut model = Unstructured::new(&input);
    let mut count = model.arbitrary_len::<u8>().unwrap();
    while !model.is_empty() && count != 0 {
        let d = ByteData::arbitrary(&mut model).ok().unwrap();
        count -= 1;
        if <bool as arbitrary::Arbitrary>::arbitrary(&mut model).unwrap() {
            expect.push_front(d);
        } else {
            expect.push_back(d);
        }
    }
    assert!(q == expect);
    assert_eq!(u.len(), model.len());
}

#[test]
fn arbitrary_text_follows_the_input() {
    // Pick 1 (a chunk): a set bit, the character 'a' in four bytes, a clear bit.
    let input = [1u8, 1, 0x61, 0, 0, 0, 0];
    let mut u = Unstructured::new(&input);
    let s = StringData::arbitrary(&mut u).ok().unwrap();
    assert_eq!(s.as_str(), "a");
    assert_eq!(u.len(), 0);
    // Pick 2 (shared): two characters, then a clear bit.
    let input = [2u8, 1, 0xE9, 0, 0, 0, 1, 0x62, 0, 0, 0, 0, 9];
    let mut u = Unstructured::new(&input);
    let s = StringData::arbitrary(&mut u).ok().unwrap();
    assert_eq!(s.as_str(), "éb");
    assert_eq!(u.len(), 1);
    // Pick 0 (borrowed): the longest valid prefix of as many bytes as the
    // last byte says (2 % 5 here).
    let input = [0u8, b'h', b'i', b'!', 2];
    let mut u = Unstructured::new(&input);
    let s = StringData::arbitrary(&mut u).ok().unwrap();
    assert_eq!(s.as_str(), "hi");
    assert_eq!(u.len(), 1);
}

#[test]
fn arbitrary_take_rest_follows_the_input() {
    let d = ByteData::arbitrary_take_rest(Unstructured::new(&[0u8, b'x', b'y'])).ok().unwrap();
    assert_eq!(d.as_slice(), b"xy");
    let long: Vec<u8> = std::iter::once(1u8).chain(0u8..20).collect();
    let d = ByteData::arbitrary_take_rest(Unstructured::new(&long)).ok().unwrap();
    assert_eq!(d.as_slice(), &long[1..15]);
    // Pick 2 builds a shared buffer as `SharedBytes::arbitrary` does: the last
    // byte gives the length, 2 % 4.
    let d = ByteData::arbitrary_take_rest(Unstructured::new(&[2u8, b'A', b'B', b'C', 2])).ok().unwrap();
    assert_eq!(d.as_slice(), b"AB");
    // Text: the longest valid prefix, a chunk padded with NUL characters once
    // the data runs out, or all the characters of the data.
    let s = StringData::arbitrary_take_rest(Unstructured::new(&[0u8, b'o', b'k', 0xFF])).ok().unwrap();
    assert_eq!(s.as_str(), "ok");
    let s = StringData::arbitrary_take_rest(Unstructured::new(&[1u8])).ok().unwrap();
    assert_eq!(s.as_bytes(), &[0u8; 14][..]);
    let s = StringData::arbitrary_take_rest(Unstructured::new(&[2u8, 0x41, 0, 0, 0, 0x42])).ok().unwrap();
    assert_eq!(s.as_str(), "AB");
}

fn byte_count(mut x: u64) -> usize {
    let mut n = 0;
    while x != 0 {
        x /= 256;
        n += 1;
    }
    n
}

/// The length that the builder is documented to read from the end of `d`.
fn documented_len(d: &[u8]) -> usize {
    let n = d.len();
    if n <= 1 {
        return 0;
    }
    let k = if n <= 256 {
        1
    } else if n <= 65537 {
        2
    } else if n as u64 <= 0x1_0000_0003 {
        4
    } else {
        8
    };
    let max = (n - k) as u64;
    let tail = &d[n - k..];
    let mut v: u128 = 0;
    for &b in &tail[..byte_count(max)] {
        v = v * 256 + u128::from(b);
    }
    (v % (u128::from(max) + 1)) as usize
}

#[test]
fn arbitrary_length_matches_the_documented_formula() {
    for n in [2usize, 3, 100, 255, 256, 257, 300, 65537, 65538, 70000] {
        for seed in [0u8, 7, 200, 255] {
            let d: Vec<u8> = (0..n).map(|i| (i as u8).wrapping_mul(31).wrapping_add(seed)).collect();
            let expected = documented_len(&d);
            let mut u = Unstructured::new(&d);
            assert_eq!(u.arbitrary_len::<u8>().unwrap(), expected, "n={n} seed={seed}");
            let mut u = Unstructured::new(&d);
            let b = SharedBytesBuilder::arbitrary(&mut u).unwrap();
            assert_eq!(b.len(), expected, "n={n} seed={seed}");
            assert_eq!(b.as_slice(), &d[..expected]);
        }
    }
}
