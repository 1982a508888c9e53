use bytedata::parser_input::CompareResult;
use bytedata::shared_bytes_builder::next_power_of_two;
use bytedata::{ByteData, ByteStringRender, StringData, StringQueue, Utf8CharIndices};

#[test]
fn split_parts_rejoin() {
    let d = ByteData::from_borrowed(b"a longer piece of borrowed bytes");
    for n in [0, 1, 13, 32] {
        let (a, b) = d.clone().split_at(n);
        let mut joined = a.as_slice().to_vec();
        joined.extend_from_slice(b.as_slice());
        assert_eq!(joined, d.as_slice());
    }
}

#[test]
fn equality_ignores_representation() {
    let text: &'static [u8] = b"the same bytes held in different ways";
    let stat = ByteData::from_static(text);
    let borrowed = ByteData::from_borrowed(text);
    let shared = ByteData::from_borrowed(text).into_shared();
    let external = ByteData::from_external(text.to_vec());
    assert!(stat == borrowed);
    assert!(borrowed == shared);
    assert!(shared == external);
}

#[test]
fn round_trips_keep_bytes() {
    let d = ByteData::from_borrowed(b"round trip through bytes::Bytes");
    assert!(ByteData::from_bytes(d.clone().into_bytes()) == d);
    let v = b"round trip through an external vector".to_vec();
    assert_eq!(ByteData::from_external(v.clone()).into_vec(), v);
}

#[test]
fn slicing_composes() {
    let d = ByteData::from_borrowed(b"0123456789abcdefghijklmnop");
    let s1 = d.sliced(3..20);
    let s2 = s1.sliced(2..9);
    assert_eq!(s2.as_slice(), d.sliced(5..12).as_slice());
    let direct = d.clone().into_shared_range(4..18);
    let indirect = d.clone().into_shared().into_sliced(4..18);
    assert!(direct == indirect);
    let t = StringData::from_borrowed("text that is long enough to be borrowed");
    let direct = t.clone().into_shared_range(5..12);
    let indirect = t.clone().into_shared().into_sliced(5..12);
    assert!(direct == indirect);
}

#[test]
fn debug_rendering_quotes_plain_rendering() {
    for data in [&b""[..], b"plain", b"\x00\xff\"\\\n"] {
        let r = ByteStringRender::from_slice(data);
        assert_eq!(r.to_debug_string(), format!("b\"{}\"", r.to_string()));
    }
}

#[test]
fn escaping_is_bytewise() {
    let a = b"ab\n\x01";
    let b = b"\"c\xfe";
    let mut ab = a.to_vec();
    ab.extend_from_slice(b);
    let whole = ByteStringRender::from_slice(&ab).to_string();
    let parts = ByteStringRender::from_slice(a).to_string() + &ByteStringRender::from_slice(b).to_string();
    assert_eq!(whole, parts);
    assert_eq!(ByteStringRender::from_slice(b"Plain text 123!").to_string(), "Plain text 123!");
}

#[test]
fn valid_text_decodes_without_error() {
    let text = "añ€😊z";
    let mut it = Utf8CharIndices::new(text.as_bytes());
    let mut decoded = Vec::new();
    while let Some(item) = it.next() {
        decoded.push(item.ok().unwrap());
    }
    let expected: Vec<(usize, char)> = text.char_indices().collect();
    assert_eq!(decoded, expected);
}

#[test]
fn buffer_sizes_are_least_powers_of_two() {
    for n in 1..300usize {
        let p = next_power_of_two(n);
        assert!(p >= n && p.is_power_of_two());
        assert!(p == 1 || p / 2 < n);
    }
}

#[test]
fn text_chunks_join_into_text() {
    let mut q = StringQueue::new();
    q.push_back(StringData::from_static("añ"));
    q.push_back(StringData::from_static("€"));
    q.push_back(StringData::from_static("b"));
    let mut chars = String::new();
    let mut it = q.chars();
    while let Some(c) = it.next() {
        chars.push(c);
    }
    assert_eq!(chars, "añ€b");
    assert_eq!(q.len(), "añ€b".len());
}

fn bytes_of_queue(q: &bytedata::ByteQueue<'_>) -> Vec<u8> {
    let mut out = Vec::new();
    let mut it = q.bytes();
    while let Some(b) = it.next() {
        out.push(b);
    }
    out
}

#[test]
fn split_off_then_append_restores() {
    let mut q = bytedata::ByteQueue::new();
    q.push_back(ByteData::from_static(b"abc"));
    q.push_back(ByteData::from_static(b"defg"));
    let before = bytes_of_queue(&q);
    for at in 0..=before.len() {
        let mut r = q.clone();
        let tail = r.split_off(at);
        r.append(tail);
        assert_eq!(bytes_of_queue(&r), before);
    }
}

#[test]
fn push_front_then_drain_removes_one_byte() {
    let mut q = bytedata::ByteQueue::new();
    q.push_back(ByteData::from_static(b"xyz"));
    q.push_front(ByteData::from_static(b"test"));
    let mut drained = Vec::new();
    let mut d = q.drain(0..5);
    while let Some(b) = d.next() {
        drained.push(b);
    }
    assert_eq!(drained, b"testx");
    assert_eq!(bytes_of_queue(&q), b"yz");
}

#[test]
fn copies_and_full_slices_keep_bytes() {
    let d = ByteData::from_borrowed(b"some bytes to copy around");
    let c = d.clone();
    let s = d.sliced(0..d.len());
    assert!(c == d && s == d);
    assert_eq!(s.get(0), d.get(0));
    assert_eq!(s.get(s.len() - 1), d.get(d.len() - 1));
}

#[test]
fn compare_is_a_prefix_test() {
    let input = ByteData::from_static(b"prefix-and-more");
    for (t, want) in [
        (&b"prefix"[..], CompareResult::Matches),
        (&b""[..], CompareResult::Matches),
        (&b"prefix-and-more"[..], CompareResult::Matches),
        (&b"prefix-and-more!"[..], CompareResult::Incomplete),
        (&b"prefiX"[..], CompareResult::Differs),
    ] {
        assert_eq!(input.compare(t), want);
        assert_eq!(want == CompareResult::Matches, input.as_slice().starts_with(t));
    }
}

#[test]
fn queue_compare_ignores_chunking() {
    let whole = ByteData::from_static(b"chunked input");
    let mut q = bytedata::ByteQueue::new();
    q.push_back(ByteData::from_static(b"chu"));
    q.push_back(ByteData::from_static(b"nked in"));
    q.push_back(ByteData::from_static(b"put"));
    for t in [&b"chunk"[..], b"chunked input", b"chunked input!", b"chunky", b""] {
        assert_eq!(q.compare(t), whole.compare(t));
        assert_eq!(q.compare_no_case(t), whole.compare_no_case(t));
    }
}

#[test]
fn split_on_parts_rejoin_with_separator() {
    let cases: [(&[u8], &[u8]); 8] = [
        (b"a,b", b","),
        (b"a,", b","),
        (b",a", b","),
        (b",,", b","),
        (b"a::b::", b"::"),
        (b"abc", b"x"),
        (b"abc", b""),
        (b"", b","),
    ];
    for (data, needle) in cases {
        let mut it = ByteData::from_borrowed(data).split_on(needle);
        let mut parts: Vec<Vec<u8>> = Vec::new();
        while let Some(p) = it.next() {
            parts.push(p.as_slice().to_vec());
        }
        assert_eq!(parts.join(needle), data.to_vec(), "{data:?} on {needle:?}");
        if !needle.is_empty() {
            for p in &parts {
                assert!(!p.windows(needle.len()).any(|w| w == needle));
            }
        }
    }
}
