use core::cmp::Ordering;

use bytedata::ordering::compare_slices;
use bytedata::{ByteData, ByteQueue, SharedBytes, StringData, StringQueue};

fn queue_of(parts: &[&'static [u8]]) -> ByteQueue<'static> {
    let mut q = ByteQueue::new();
    for p in parts {
        q.push_back(ByteData::from_static(p));
    }
    q
}

#[test]
fn slices_order_lexicographically() {
    assert_eq!(compare_slices(b"abc", b"abd"), Ordering::Less);
    assert_eq!(compare_slices(b"abd", b"abc"), Ordering::Greater);
    assert_eq!(compare_slices(b"ab", b"abc"), Ordering::Less);
    assert_eq!(compare_slices(b"abc", b"ab"), Ordering::Greater);
    assert_eq!(compare_slices(b"", b""), Ordering::Equal);
    assert_eq!(compare_slices(b"abc", b"abc"), Ordering::Equal);
}

#[test]
fn queues_order_by_bytes_not_chunks() {
    let a = queue_of(&[b"ab", b"cd", b"e"]);
    let b = queue_of(&[b"a", b"bcde"]);
    assert_eq!(a.cmp(&b), Ordering::Equal);
    let c = queue_of(&[b"abc", b"df"]);
    assert_eq!(a.cmp(&c), Ordering::Less);
    assert_eq!(c.cmp(&a), Ordering::Greater);
    let d = queue_of(&[b"ab"]);
    assert_eq!(d.cmp(&a), Ordering::Less);
    assert_eq!(a.partial_cmp(&d), Some(Ordering::Greater));
    assert_eq!(a.partial_cmp_slice(b"abcde"), Some(Ordering::Equal));
    assert_eq!(a.partial_cmp_slice(b"abcdd"), Some(Ordering::Greater));
    assert_eq!(ByteQueue::new().cmp(&ByteQueue::new()), Ordering::Equal);
    assert_eq!(ByteQueue::new().cmp(&a), Ordering::Less);
}

#[test]
fn containers_order_by_bytes() {
    let x = ByteData::from_borrowed(b"apple");
    let y = ByteData::from_owned(b"apples".to_vec());
    assert_eq!(x.cmp(&y), Ordering::Less);
    assert_eq!(y.partial_cmp(&x), Some(Ordering::Greater));
    assert_eq!(x.partial_cmp_slice(b"apple"), Some(Ordering::Equal));
    let s = SharedBytes::from_slice(b"b");
    assert_eq!(s.partial_cmp(&SharedBytes::from_slice(b"a")), Some(Ordering::Greater));
    assert_eq!(s.partial_cmp_slice(b"c"), Some(Ordering::Less));
    let t = StringData::from_static("é");
    assert_eq!(t.partial_cmp(&StringData::from_static("z")), Some(Ordering::Greater));
    let mut q1 = StringQueue::new();
    q1.push_back(StringData::from_static("ab"));
    let mut q2 = StringQueue::new();
    q2.push_back(StringData::from_static("a"));
    q2.push_back(StringData::from_static("c"));
    assert_eq!(q1.cmp(&q2), Ordering::Less);
    assert_eq!(q2.partial_cmp(&q1), Some(Ordering::Greater));
}
