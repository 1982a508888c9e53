use bytedata::{ByteData, ByteQueue, StringQueue};

#[test]
fn test_try_from_bytequeue() {
    {
        let mut bq = ByteQueue::new();
        bq.push_back(ByteData::from_static(b"Hello, "));
        bq.push_back(ByteData::from_static(b"world!"));
        let sq = StringQueue::try_from_bytequeue(&bq).ok().unwrap();
        assert_eq!(sq.len(), 13);
        assert!(sq == StringQueue::from("Hello, world!"));
    };
    {
        let mut bq = ByteQueue::new();
        bq.push_back(ByteData::from_static(b"Hello, "));
        bq.push_back(ByteData::from_static(&[0xFF, 0xFE, 0xFD]));
        bq.push_back(ByteData::from_static(b"world!"));
        let err = match StringQueue::try_from_bytequeue(&bq) {
            Ok(_) => panic!("invalid UTF-8 was accepted"),
            Err(err) => err,
        };
        assert_eq!(err.0.len(), 7);
        assert_eq!(err.1, Some(1));
    };
    {
        let mut bq = ByteQueue::new();
        for chunk in "åäö".as_bytes().chunks(3) {
            bq.push_back(ByteData::from_chunk_slice(chunk));
        }
        assert_eq!(bq.chunk_len(), 2);
        let sq = StringQueue::try_from_bytequeue(&bq).ok().unwrap();
        assert_eq!(sq.chunk_len(), 2);
        assert_eq!(sq.len(), 6);
        let mut it = sq.chunks();
        assert_eq!(it.next().unwrap().as_str(), "å");
        assert_eq!(it.next().unwrap().as_str(), "äö");
    };
    {
        let mut bq = ByteQueue::new();
        for chunk in "åäö".as_bytes().chunks(1) {
            bq.push_back(ByteData::from_chunk_slice(chunk));
        }
        assert_eq!(bq.chunk_len(), 6);
        let sq = StringQueue::try_from_bytequeue(&bq).ok().unwrap();
        assert_eq!(sq.chunk_len(), 1);
        assert_eq!(sq.len(), 6);
        assert!(sq == StringQueue::from("åäö"));
    };
}

#[test]
fn try_from_bytequeue_keeps_bytes_after_a_split_character() {
    let mut bq = ByteQueue::new();
    bq.push_back(ByteData::from_static(b"\xC3"));
    bq.push_back(ByteData::from_static(b"\xA5bcdefghijklmnopq"));
    let sq = StringQueue::try_from_bytequeue(&bq).ok().unwrap();
    assert!(sq == StringQueue::from("åbcdefghijklmnopq"));
    assert_eq!(sq.len(), 18);
}

#[test]
fn try_from_bytequeue_truncated_end() {
    let mut bq = ByteQueue::new();
    bq.push_back(ByteData::from_static(b"ab"));
    bq.push_back(ByteData::from_static(b"\xE2\x82"));
    let err = match StringQueue::try_from_bytequeue(&bq) {
        Ok(_) => panic!("truncated UTF-8 was accepted"),
        Err(err) => err,
    };
    assert_eq!(err.0.len(), 2);
    assert_eq!(err.1, None);
}

#[test]
fn try_from_bytequeue_owned_returns_rest() {
    let mut bq = ByteQueue::new();
    bq.push_back(ByteData::from_static(b"Hello, "));
    bq.push_back(ByteData::from_static(&[0xFF, 0x41]));
    let (partial, rest, err) = match StringQueue::try_from_bytequeue_owned(bq) {
        Ok(_) => panic!("invalid UTF-8 was accepted"),
        Err(err) => err,
    };
    assert_eq!(partial.len(), 7);
    assert_eq!(rest.len(), 2);
    assert_eq!(err, Some(1));
}

use bytedata::StringData;

fn text_of(q: &StringQueue<'_>) -> String {
    let mut out = String::new();
    let mut it = q.chars();
    while let Some(c) = it.next() {
        out.push(c);
    }
    out
}

fn text_queue(parts: &[&'static str]) -> StringQueue<'static> {
    let mut q = StringQueue::new();
    for p in parts {
        q.push_back(StringData::from_static(p));
    }
    q
}

#[test]
fn string_queue_basics() {
    let mut q = text_queue(&["héllo", " ", "wörld"]);
    assert_eq!(q.len(), 13);
    assert_eq!(q.chunk_len(), 3);
    assert!(!q.is_empty());
    assert!(!q.is_full());
    assert!(q.starts_with("hél"));
    assert!(q.ends_with("rld"));
    assert_eq!(text_of(&q), "héllo wörld");
    assert_eq!(q.front().unwrap().as_str(), "héllo");
    assert_eq!(q.back().unwrap().as_str(), "wörld");
    q.push_front(StringData::from_static(">"));
    assert_eq!(q.pop_front().unwrap().as_str(), ">");
    assert_eq!(q.pop_back().unwrap().as_str(), "wörld");
    assert_eq!(text_of(&q), "héllo ");
    let single = StringQueue::with_item(StringData::from_static("x"));
    assert_eq!(single.len(), 1);
}

#[test]
fn string_queue_chars_and_slices() {
    let q = text_queue(&["añ", "b"]);
    let mut idx = q.chars_indecies();
    assert_eq!(idx.next(), Some((0, 'a')));
    assert_eq!(idx.next(), Some((1, 'ñ')));
    assert_eq!(idx.next(), Some((3, 'b')));
    assert_eq!(idx.next(), None);
    let mut owned = q.clone().into_chars();
    assert_eq!(owned.next(), Some('a'));
    assert_eq!(text_of(&q.slice(1..4)), "ñb");
    assert_eq!(q.find_char(|c: char| c == 'b'), Some(3));
    assert_eq!(q.find_char(|c: char| c == 'z'), None);
    let mut bytes = q.bytes();
    assert_eq!(bytes.next(), Some(b'a'));
    assert_eq!(q.clone().into_bytes().count(), 4);
    assert_eq!(q.byte_chunks().len(), 2);
    assert!(q.duplicate() == q);
}

#[test]
fn string_queue_editing() {
    let mut q = text_queue(&["one\ntw", "o\nthree"]);
    assert_eq!(text_of(&q.take_line()), "one\n");
    assert_eq!(text_of(&q.take_line()), "two\n");
    assert_eq!(text_of(&q.take_line()), "three");
    assert!(q.is_empty());
    let mut q = text_queue(&["abc", "def"]);
    let letters = q.take_while(|c: char| c != 'e');
    assert_eq!(text_of(&letters), "abcd");
    assert_eq!(text_of(&q), "ef");
    let mut q = text_queue(&["hello ", "world"]);
    let tail = q.split_off(6);
    assert_eq!(text_of(&q), "hello ");
    assert_eq!(text_of(&tail), "world");
    q.append(tail);
    assert_eq!(text_of(&q), "hello world");
    q.replace_range(0..5, StringData::from_static("HELLO"));
    assert_eq!(text_of(&q), "HELLO world");
    let mut drained = String::new();
    let mut d = q.drain(5..11);
    while let Some(c) = d.next() {
        drained.push(c);
    }
    assert_eq!(drained, " world");
    assert_eq!(text_of(&q), "HELLO");
}

#[test]
fn string_queue_splitting() {
    let q = text_queue(&["a, b", ", c"]);
    let mut parts = Vec::new();
    let mut it = q.split_on(", ");
    while let Some(p) = it.next() {
        parts.push(text_of(&p));
    }
    assert_eq!(parts, vec!["a", "b", "c"]);
    let mut first_two = Vec::new();
    let mut it = q.splitn_on(", ", 2);
    while let Some(p) = it.next() {
        first_two.push(text_of(&p));
    }
    assert_eq!(first_two, vec!["a", "b, c"]);
    let mut on_bytes = 0;
    let mut it = q.split_on_bytes(b",");
    while it.next().is_some() {
        on_bytes += 1;
    }
    assert_eq!(on_bytes, 3);
}

#[test]
fn string_queue_conversions() {
    let q = StringQueue::from(StringData::from_static("abc"));
    assert!(q == StringQueue::from("abc"));
    assert!(q == StringQueue::from(String::from("abc")));
    let bq = q.clone().into_bytequeue();
    assert_eq!(bq.len(), 3);
    assert_eq!(q.as_bytequeue().len(), 3);
    let shared = text_queue(&["some static text"]).into_shared();
    assert_eq!(text_of(&shared), "some static text");
    let mut made = text_queue(&["made shared"]);
    made.make_shared();
    assert_eq!(text_of(&made), "made shared");
    assert!(StringQueue::default().is_empty());
}

#[test]
fn text_chunks_come_out_whole() {
    let q = text_queue(&["ab", "cde", "f"]);
    let mut it = q.into_iter();
    assert_eq!(it.next().unwrap().as_str(), "ab");
    assert_eq!(it.next_back().unwrap().as_str(), "f");
    assert_eq!(it.next().unwrap().as_str(), "cde");
    assert!(it.next().is_none());
}
