use bytedata::parser_input::{CompareResult, Needed, SplitError};
use bytedata::{ByteData, ByteQueue, StringData, StringQueue};

fn not_alpha(c: char) -> bool {
    !nom::AsChar::is_alpha(c)
}

fn not_space(c: char) -> bool {
    !(c == ' ' || c == '\t')
}

fn text_of(q: &StringQueue<'_>) -> String {
    let mut out = String::new();
    let mut it = q.chars();
    while let Some(c) = it.next() {
        out.push(c);
    }
    out
}

fn byte_queue(parts: &[&'static [u8]]) -> ByteQueue<'static> {
    let mut q = ByteQueue::new();
    for p in parts {
        q.push_back(ByteData::from_static(p));
    }
    q
}

fn queue_bytes(q: &ByteQueue<'_>) -> Vec<u8> {
    let mut out = Vec::new();
    let mut it = q.bytes();
    while let Some(b) = it.next() {
        out.push(b);
    }
    out
}

#[test]
fn test_nom_string() {
    let st = StringData::from_static("hello world");
    let (st, res) = st.split_at_position1(not_alpha).unwrap();
    assert_eq!(res.as_str(), "hello");
    let (st, res) = st.split_at_position1(not_space).unwrap();
    assert_eq!(res.as_str(), " ");
    let (st, res) = st.split_at_position1_complete(not_alpha).unwrap();
    assert_eq!(res.as_str(), "world");
    assert_eq!(st.as_str(), "");
}

#[test]
fn test_nom_string_queue() {
    let st = StringQueue::from_iter(vec![
        StringData::from_static("hel"),
        StringData::from_static("lo"),
        StringData::from_static(" w"),
        StringData::from_static("orld"),
    ]);
    let (st, res) = st.split_at_position1(not_alpha).unwrap();
    assert_eq!(text_of(&res), "hello");
    let (st, res) = st.split_at_position1(not_space).unwrap();
    assert_eq!(text_of(&res), " ");
    let (st, res) = st.split_at_position1_complete(not_alpha).unwrap();
    assert_eq!(text_of(&res), "world");
    assert_eq!(text_of(&st), "");
}

#[test]
fn streaming_alpha_needs_more_input_at_the_end() {
    let st = StringData::from_static("hello");
    assert_eq!(st.split_at_position1(not_alpha).err(), Some(SplitError::Incomplete));
    assert_eq!(st.split_at_position(not_alpha).err(), Some(SplitError::Incomplete));
    let st = StringData::from_static(" hello");
    assert_eq!(st.split_at_position1(not_alpha).err(), Some(SplitError::Failure));
    let (rest, taken) = st.split_at_position(not_alpha).unwrap();
    assert_eq!(rest.as_str(), " hello");
    assert_eq!(taken.as_str(), "");
    let (rest, taken) = StringData::from_static("héllo wörld").split_at_position_complete(|c| c == ' ');
    assert_eq!(taken.as_str(), "héllo");
    assert_eq!(rest.as_str(), " wörld");
    let (rest, taken) = StringData::from_static("abc").split_at_position_complete(not_alpha);
    assert_eq!(taken.as_str(), "abc");
    assert_eq!(rest.as_str(), "");
}

#[test]
fn byte_splitting() {
    let d = ByteData::from_static(b"abc123");
    let (rest, taken) = d.split_at_position(|b| b.is_ascii_digit()).unwrap();
    assert_eq!(taken.as_slice(), b"abc");
    assert_eq!(rest.as_slice(), b"123");
    assert_eq!(
        d.split_at_position(|b| b == b'x').err(),
        Some(SplitError::Incomplete)
    );
    assert_eq!(
        d.split_at_position1(|b| b == b'a').err(),
        Some(SplitError::Failure)
    );
    let (rest, taken) = d.split_at_position_complete(|b| b == b'x');
    assert_eq!(taken.as_slice(), b"abc123");
    assert!(rest.is_empty());
    let (rest, taken) = d.split_at_position1_complete(|b| b == b'x').unwrap();
    assert_eq!(taken.as_slice(), b"abc123");
    assert!(rest.is_empty());
    assert_eq!(
        d.split_at_position1_complete(|b| b == b'a').err(),
        Some(SplitError::Failure)
    );

    let q = byte_queue(&[b"ab", b"c1", b"23"]);
    let (rest, taken) = q.split_at_position(|b| b.is_ascii_digit()).unwrap();
    assert_eq!(queue_bytes(&taken), b"abc");
    assert_eq!(queue_bytes(&rest), b"123");
    assert_eq!(q.split_at_position1(|b| b == b'a').err(), Some(SplitError::Failure));
    assert_eq!(q.split_at_position1(|b| b == b'x').err(), Some(SplitError::Incomplete));
    let (rest, taken) = q.split_at_position_complete(|b| b == b'x');
    assert_eq!(queue_bytes(&taken), b"abc123");
    assert!(rest.is_empty());
    let (rest, taken) = q.split_at_position1_complete(|b| b == b'3').unwrap();
    assert_eq!(queue_bytes(&taken), b"abc12");
    assert_eq!(queue_bytes(&rest), b"3");
}

#[test]
fn comparing_prefixes() {
    let d = ByteData::from_static(b"Hello, world");
    assert_eq!(d.compare(b"Hello"), CompareResult::Matches);
    assert_eq!(d.compare(b"hello"), CompareResult::Differs);
    assert_eq!(d.compare_no_case(b"hELLO"), CompareResult::Matches);
    assert_eq!(d.compare(b"Hello, world!"), CompareResult::Incomplete);
    assert_eq!(d.compare(b""), CompareResult::Matches);

    let q = byte_queue(&[b"Hel", b"lo, ", b"wor", b"ld"]);
    assert_eq!(q.compare(b"Hello, w"), CompareResult::Matches);
    assert_eq!(q.compare(b"Hello, world"), CompareResult::Matches);
    assert_eq!(q.compare(b"Hello, world!!"), CompareResult::Incomplete);
    assert_eq!(q.compare(b"Hello, World"), CompareResult::Differs);
    assert_eq!(q.compare_no_case(b"HELLO, WORLD"), CompareResult::Matches);
    assert_eq!(q.compare_no_case(b"HELLO, WORLD?"), CompareResult::Incomplete);
    assert_eq!(q.compare_no_case(b"HELLO; WORLD"), CompareResult::Differs);
    assert_eq!(ByteQueue::new().compare(b"a"), CompareResult::Incomplete);

    let s = StringData::from_static("Straße");
    assert_eq!(s.compare("Stra".as_bytes()), CompareResult::Matches);
    assert_eq!(s.compare_no_case("STRASSE".as_bytes()), CompareResult::Differs);
    assert_eq!(s.compare_no_case_str("sTRAßE"), CompareResult::Matches);
    assert_eq!(
        nom::Compare::compare_no_case(&"Straße", "sTRAßE"),
        nom::CompareResult::Ok
    );
    // The capital sharp s lower-cases alike but takes one byte more.
    assert_eq!(s.compare_no_case_str("STRAẞE"), CompareResult::Incomplete);
    assert_eq!(
        nom::Compare::compare_no_case(&"Straße", "STRAẞE"),
        nom::CompareResult::Incomplete
    );
    assert_eq!(s.compare_no_case_str("strasse"), CompareResult::Differs);

    let mut sq = StringQueue::new();
    sq.push_back(StringData::from_static("ÅNG"));
    sq.push_back(StringData::from_static("STRÖM"));
    assert_eq!(sq.compare("ÅNGS".as_bytes()), CompareResult::Matches);
    assert_eq!(sq.compare_no_case("ÅngStröm".as_bytes()), CompareResult::Differs);
    assert_eq!(sq.compare_no_case_str("ångström"), CompareResult::Matches);
    assert_eq!(sq.compare_no_case_str("ångströms"), CompareResult::Incomplete);
    assert_eq!(sq.compare_no_case_str("angström"), CompareResult::Differs);
}

#[test]
fn slice_indexes() {
    let d = ByteData::from_static(b"abcd");
    assert_eq!(d.slice_index(3), Ok(3));
    assert_eq!(d.slice_index(4), Ok(4));
    assert_eq!(d.slice_index(6), Err(Needed::Size(2)));
    let q = byte_queue(&[b"ab", b"cd"]);
    assert_eq!(q.slice_index(1), Ok(1));
    assert_eq!(q.slice_index(5), Err(Needed::Size(1)));
    let s = StringData::from_static("añb");
    assert_eq!(s.slice_index(0), Ok(0));
    assert_eq!(s.slice_index(2), Ok(3));
    assert_eq!(s.slice_index(3), Ok(4));
    assert_eq!(s.slice_index(4), Err(Needed::Unknown));
    let mut sq = StringQueue::new();
    sq.push_back(StringData::from_static("añ"));
    assert_eq!(sq.slice_index(3), Ok(3));
    assert_eq!(sq.slice_index(5), Err(Needed::Size(2)));
}

#[test]
fn finding_tokens() {
    let d = ByteData::from_static(b"key=value");
    assert!(d.find_token(b'='));
    assert!(!d.find_token(b';'));
    let q = byte_queue(&[b"ke", b"y=", b"value"]);
    assert!(q.find_token(b'='));
    assert!(!q.find_token(b'\n'));
    let s = StringData::from_static("naïve");
    assert!(s.find_token('ï'));
    assert!(!s.find_token('i'));
    let mut sq = StringQueue::new();
    sq.push_back(StringData::from_static("na"));
    sq.push_back(StringData::from_static("ïve"));
    assert!(sq.find_token('ï'));
    assert!(!sq.find_token('x'));
}

#[test]
fn hex_rendering() {
    let q = byte_queue(&[b"\x00\x01", b"\xab\xff", b"z"]);
    assert_eq!(q.to_hex(2), "\n0001\nabff\n7a");
    assert_eq!(q.to_hex_from(4, 1), "\n01abff7a");
    assert_eq!(q.to_hex_from(1, 5), "");
    let mut sq = StringQueue::new();
    sq.push_back(StringData::from_static("AB"));
    assert_eq!(sq.to_hex(8), "\n4142");

    let d = ByteData::from_static(b"AB");
    let expected = nom::HexDisplay::to_hex_from(&b"AB"[..], 4, 16);
    assert_eq!(d.to_hex_from(4, 16), expected);
    assert_eq!(d.to_hex(4), nom::HexDisplay::to_hex(&b"AB"[..], 4));
    assert_eq!(d.to_hex(4), "00000000\t41 42       \tAB\n");
    let s = StringData::from_static("AB");
    assert_eq!(s.to_hex(4), "00000000\t41 42       \tAB\n");
}

#[test]
fn queues_from_chunk_lists() {
    let q = ByteQueue::from_iter(vec![
        ByteData::from_static(b"ab"),
        ByteData::empty(),
        ByteData::from_static(b"cde"),
    ]);
    assert_eq!(queue_bytes(&q), b"abcde");
    assert_eq!(q.chunk_len(), 2);
    assert!(ByteQueue::from_iter(Vec::new()).is_empty());
    let sq = StringQueue::from_iter(vec![StringData::from_static("på "), StringData::from_static("väg")]);
    assert_eq!(text_of(&sq), "på väg");
}
