use bytedata::queue::byte_queue::is_same_as;
use bytedata::{ByteData, ByteQueue};

fn queue_of(parts: &[&'static [u8]]) -> ByteQueue<'static> {
    let mut q = ByteQueue::new();
    for p in parts {
        q.push_back(ByteData::from_static(p));
    }
    q
}

fn bytes_of(q: &ByteQueue<'_>) -> Vec<u8> {
    let mut out = Vec::new();
    let mut it = q.bytes();
    while let Some(b) = it.next() {
        out.push(b);
    }
    out
}

#[test]
fn queue_push_and_pop() {
    let mut q = ByteQueue::new();
    assert!(q.is_empty());
    assert!(!q.is_full());
    q.push_back(ByteData::from_static(b"world"));
    q.push_front(ByteData::from_static(b"hello "));
    q.push_back(ByteData::empty());
    assert_eq!(q.chunk_len(), 2);
    assert_eq!(q.len(), 11);
    assert_eq!(q.front().unwrap().as_slice(), b"hello ");
    assert_eq!(q.back().unwrap().as_slice(), b"world");
    assert_eq!(q.chunk_at(1).as_slice(), b"world");
    assert_eq!(q.get_byte(6), b'w');
    assert_eq!(q.pop_front().unwrap().as_slice(), b"hello ");
    assert_eq!(q.pop_back().unwrap().as_slice(), b"world");
    assert!(q.pop_front().is_none());
    let single = ByteQueue::with_item(ByteData::from_static(b"one"));
    assert_eq!(single.chunk_len(), 1);
    assert!(is_same_as(b"one", &single));
    assert!(!is_same_as(b"two", &single));
}

#[test]
fn queue_search() {
    let q = queue_of(&[b"abc", b"def", b"ghi"]);
    assert!(q.starts_with(b"abcd"));
    assert!(q.ends_with(b"fghi"));
    assert!(!q.starts_with(b"bc"));
    assert!(q.exists_at(2, b"cde"));
    assert!(!q.exists_at(8, b"ij"));
    assert_eq!(q.find_slice(b"cdef"), Some(2));
    assert_eq!(q.find_slice(b"xyz"), None);
    assert_eq!(q.find_slice(b""), Some(0));
    assert_eq!(q.find_slice_after(b"g", 3), Some(6));
    assert_eq!(q.find_byte(|b: u8| b == b'e'), Some(4));
    assert_eq!(q.find_byte(|b: u8| b == b'z'), None);
    assert_eq!(bytes_of(&q.slice(1..8)), b"bcdefgh");
}

#[test]
fn queue_split_and_append() {
    let mut q = queue_of(&[b"abc", b"def", b"ghi"]);
    let tail = q.split_off(4);
    assert_eq!(bytes_of(&q), b"abcd");
    assert_eq!(bytes_of(&tail), b"efghi");
    q.append(tail);
    assert_eq!(bytes_of(&q), b"abcdefghi");
    q.consume(2);
    assert_eq!(bytes_of(&q), b"cdefghi");
    let mut drained = Vec::new();
    let mut d = q.drain(1..4);
    assert_eq!(d.len(), 3);
    while let Some(b) = d.next() {
        drained.push(b);
    }
    assert!(d.is_empty());
    assert_eq!(drained, b"def");
    assert_eq!(bytes_of(&q), b"cghi");
}

#[test]
fn queue_split_on_separator() {
    let q = queue_of(&[b"a,b", b",,c", b","]);
    let mut parts = Vec::new();
    let mut it = q.split_on(b",");
    while let Some(p) = it.next() {
        parts.push(bytes_of(&p));
    }
    assert_eq!(parts, vec![b"a".to_vec(), b"b".to_vec(), b"".to_vec(), b"c".to_vec(), b"".to_vec()]);
    let mut limited = Vec::new();
    let mut it = q.splitn_on(b",", 2);
    while let Some(p) = it.next() {
        limited.push(bytes_of(&p));
    }
    assert_eq!(limited, vec![b"a".to_vec(), b"b,,c,".to_vec()]);
}

#[test]
fn queue_iteration_and_joining() {
    let q = queue_of(&[b"ab", b"cd"]);
    let mut chunks = q.chunks();
    assert_eq!(chunks.len(), 2);
    assert_eq!(chunks.next().unwrap().as_slice(), b"ab");
    assert_eq!(chunks.next().unwrap().as_slice(), b"cd");
    assert!(chunks.next().is_none());
    let mut owned = q.clone().into_iter();
    assert_eq!(owned.len(), 2);
    assert_eq!(owned.next_back().unwrap().as_slice(), b"cd");
    let mut bytes = q.clone().into_bytes();
    assert_eq!(bytes.len(), 4);
    assert_eq!(bytes.next(), Some(b'a'));
    assert_eq!(bytes.nth(1), Some(b'c'));
    assert_eq!(bytes.count(), 1);
    assert_eq!(q.clone().into_bytes().last(), Some(b'd'));
    assert_eq!(q.clone().into_bytedata().as_slice(), b"abcd");
    let shared = q.clone().into_shared();
    assert!(shared == q);
    let mut made = q.clone();
    made.make_shared();
    assert!(made == q);
}

#[test]
fn queue_conversions_and_equality() {
    let a = ByteQueue::from(ByteData::from_static(b"same"));
    let b = ByteQueue::from(&b"same"[..]);
    let c = ByteQueue::from(b"same".to_vec());
    assert!(a == b);
    assert!(b == c);
    assert!(queue_of(&[b"sa", b"me"]) == a);
    assert!(queue_of(&[b"sa", b"mE"]) != a);
    assert!(ByteQueue::default().is_empty());
}

#[test]
fn make_shared_keeps_the_bytes() {
    let owned = b"borrowed bytes that are long enough".to_vec();
    let mut q = ByteQueue::new();
    q.push_back(ByteData::from_borrowed(&owned));
    q.push_back(ByteData::from_static(b"static"));
    let before = q.clone();
    q.make_shared();
    assert!(q == before);
    assert_eq!(q.chunk_len(), 2);
}

#[test]
fn chunk_iterator_skips_in_place() {
    let q = queue_of(&[b"a", b"bc", b"def"]);
    let mut it = q.chunks();
    it.skip_mut(1);
    assert_eq!(it.len(), 2);
    assert_eq!(it.next().unwrap().as_slice(), b"bc");
    it.skip_mut(5);
    assert!(it.next().is_none());
}
