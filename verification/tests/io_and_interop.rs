use bytedata::{ByteData, ByteQueue, SharedBytes, SharedBytesBuilder};

#[test]
fn bytedata_reads() {
    let mut d = ByteData::from_borrowed(b"line one\nline two");
    let mut buf = [0u8; 4];
    assert_eq!(d.read(&mut buf), 4);
    assert_eq!(&buf, b"line");
    let mut out = Vec::new();
    assert_eq!(d.read_until(b'\n', &mut out), 5);
    assert_eq!(out, b" one\n");
    assert_eq!(d.fill_buf(), b"line two");
    d.consume(5);
    let mut rest = Vec::new();
    assert_eq!(d.read_to_end(&mut rest), 3);
    assert_eq!(rest, b"two");
    assert!(d.is_empty());
    let mut big = [0u8; 8];
    assert_eq!(d.read(&mut big), 0);
}

#[test]
fn shared_bytes_reads() {
    let mut s = SharedBytes::from_slice(b"abc;def");
    let mut out = Vec::new();
    assert_eq!(s.read_until(b';', &mut out), 4);
    assert_eq!(out, b"abc;");
    let mut buf = [0u8; 10];
    assert_eq!(s.read(&mut buf), 3);
    assert_eq!(&buf[..3], b"def");
    assert_eq!(s.fill_buf(), b"");
    let mut t = SharedBytes::from_slice(b"xyz");
    t.consume(1);
    let mut all = Vec::new();
    assert_eq!(t.read_to_end(&mut all), 2);
    assert_eq!(all, b"yz");
}

#[test]
fn queue_reads_and_writes() {
    let mut q = ByteQueue::new();
    assert_eq!(q.write(b"hello "), 6);
    assert_eq!(q.write(b"world\nrest"), 10);
    assert!(q.flush().is_ok());
    let mut buf = [0u8; 3];
    assert_eq!(q.read(&mut buf), 3);
    assert_eq!(&buf, b"hel");
    assert_eq!(q.fill_buf(), b"lo ");
    let mut line = Vec::new();
    assert_eq!(q.read_until(b'\n', &mut line), 9);
    assert_eq!(line, b"lo world\n");
    let mut rest = Vec::new();
    assert_eq!(q.read_to_end(&mut rest), 4);
    assert_eq!(rest, b"rest");
    let mut b = SharedBytesBuilder::new();
    assert_eq!(b.write(b"written"), 7);
    assert!(b.flush().is_ok());
    assert_eq!(b.as_slice(), b"written");
}

#[test]
fn bytes_round_trips() {
    let d = ByteData::from_borrowed(b"to bytes and back again");
    let b = d.clone().into_bytes();
    assert_eq!(&b[..], b"to bytes and back again");
    let back = ByteData::from_bytes(b.clone());
    assert!(back == d);
    let via_from: bytes::Bytes = bytes::Bytes::from(ByteData::from_static(b"static"));
    assert_eq!(&via_from[..], b"static");
    assert_eq!(ByteData::from(bytes::Bytes::from_static(b"st")).as_slice(), b"st");
    let s = SharedBytes::from_bytes(bytes::Bytes::from_static(b"shared"));
    assert_eq!(&s.to_bytes()[..], b"shared");
    let checked = SharedBytes::try_from_bytes(bytes::Bytes::from_static(b"checked"));
    assert_eq!(checked.map(|s| s.as_slice().to_vec()).ok(), Some(b"checked".to_vec()));
    let q = ByteQueue::from_bytes(bytes::Bytes::from_static(b"queue"));
    assert_eq!(&q.into_bytes_joined()[..], b"queue");
    let mut parts = ByteQueue::new();
    parts.push_back(ByteData::from_static(b"ab"));
    parts.push_back(ByteData::from_static(b"cd"));
    assert_eq!(&parts.clone().into_bytes_joined()[..], b"abcd");
}

#[test]
fn buf_style_access() {
    let mut d = ByteData::from_borrowed(b"0123456789");
    assert_eq!(d.remaining(), 10);
    assert!(d.has_remaining());
    d.advance(2);
    assert_eq!(d.chunk(), b"23456789");
    let taken = d.copy_to_bytes(3);
    assert_eq!(&taken[..], b"234");
    assert_eq!(d.as_slice(), b"56789");
    let mut q = ByteQueue::new();
    q.push_back(ByteData::from_static(b"ab"));
    q.push_back(ByteData::from_static(b"cdef"));
    assert_eq!(q.remaining(), 6);
    assert_eq!(q.chunk(), b"ab");
    q.advance(1);
    assert_eq!(&q.copy_to_bytes(3)[..], b"bcd");
    assert_eq!(q.remaining(), 2);
    assert!(q.has_remaining());
    let mut b = SharedBytesBuilder::new();
    assert_eq!(b.remaining_mut(), 0xFFFF_FFFF - 12);
    b.put_slice(b"ab");
    b.put_bytes(b'z', 3);
    assert_eq!(b.as_slice(), b"abzzz");
}

#[test]
fn body_frames() {
    let mut big = ByteData::from_owned(vec![7u8; 70000]);
    assert!(!big.is_end_stream());
    assert_eq!(big.exact_size_hint(), 70000);
    let first = big.next_data_frame().unwrap();
    assert_eq!(first.len(), 0xFFFF);
    let second = big.next_data_frame().unwrap();
    assert_eq!(second.len(), 70000 - 0xFFFF);
    assert!(big.next_data_frame().is_none());
    assert!(big.is_end_stream());
    let mut s = SharedBytes::from_slice(b"small");
    assert_eq!(s.exact_size_hint(), 5);
    assert_eq!(s.next_data_frame().unwrap().as_slice(), b"small");
    assert!(s.is_end_stream());
    let mut q = ByteQueue::new();
    q.push_back(ByteData::from_static(b"one"));
    q.push_back(ByteData::from_static(b"two"));
    assert_eq!(q.exact_size_hint(), 6);
    assert_eq!(q.next_data_frame().unwrap().as_slice(), b"one");
    assert_eq!(q.next_data_frame().unwrap().as_slice(), b"two");
    assert!(q.next_data_frame().is_none());
    assert!(q.is_end_stream());
}

#[test]
fn header_values() {
    let h = ByteData::from_static(b"text/plain").into_header_value().ok().unwrap();
    assert_eq!(h.as_bytes(), b"text/plain");
    assert!(ByteData::from_static(b"bad\nvalue").into_header_value().is_err());
}
