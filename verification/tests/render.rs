use bytedata::ByteStringRender;

#[test]
fn test_byte_string_render() {
    {
        let data = b"Hello, World!";
        let rendered = ByteStringRender::from_slice(data);
        assert_eq!(rendered.to_string(), "Hello, World!");
        assert_eq!(rendered.to_debug_string(), r#"b"Hello, World!""#);
    };

    {
        let data = b"Hello, \nWorld!";
        let rendered = ByteStringRender::from_slice(data);
        assert_eq!(rendered.to_string(), r"Hello, \nWorld!");
        assert_eq!(rendered.to_debug_string(), r#"b"Hello, \nWorld!""#);
    };
}

use bytedata::byte_string_render::{lower_hex_slice, upper_hex_slice};
use bytedata::MultiByteStringRender;

#[test]
fn render_escapes_every_kind_of_byte() {
    let data = b"q\"b\\ \r\t\x00\x7f\xff~";
    let rendered = ByteStringRender::from_slice(data);
    assert_eq!(rendered.to_string(), r#"q\"b\\ \r\t\x00\x7f\xff~"#);
    assert_eq!(rendered.as_slice(), data);
    assert_eq!(ByteStringRender::from_str("é").to_string(), r"\xc3\xa9");
    let v = b"vec".to_vec();
    assert_eq!(ByteStringRender::from_ref(&v).to_debug_string(), r#"b"vec""#);
    assert_eq!(ByteStringRender::from(&b"x"[..]).to_string(), "x");
}

#[test]
fn render_hex() {
    let r = ByteStringRender::from_slice(&[0x0A, 0xBC]);
    assert_eq!(r.to_lower_hex(None), "0abc");
    assert_eq!(r.to_upper_hex(None), "0ABC");
    assert_eq!(r.to_lower_hex(Some(8)), "00000abc");
    assert_eq!(r.to_upper_hex(Some(2)), "0ABC");
    assert_eq!(lower_hex_slice(&[0xFF, 0x01], Some(5)), "0ff01");
    assert_eq!(upper_hex_slice(&[], Some(3)), "000");
    assert_eq!(lower_hex_slice(&[], None), "");
}

#[test]
fn render_many_slices() {
    let parts: [&[u8]; 3] = [b"ab", b"\n", b"c\""];
    let r = MultiByteStringRender::new(&parts);
    assert_eq!(r.to_string(), r#"ab\nc\""#);
    assert_eq!(r.to_debug_string(), r#"b"ab\nc\"""#);
}

#[test]
fn render_from_references_to_byte_holders() {
    let s = String::from("text\n");
    assert_eq!(ByteStringRender::from_ref(&s).to_string(), "text\\n");
    let d = bytedata::ByteData::from_static(b"\x01");
    assert_eq!(ByteStringRender::from_ref(&d).to_string(), "\\x01");
    let arr: &[u8] = b"ab";
    assert_eq!(ByteStringRender::from_ref(arr).to_string(), "ab");
}
