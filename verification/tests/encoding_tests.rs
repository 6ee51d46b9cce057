use base64::Engine;
use smtp_relay::dotstuff::{client_dot_stuff, server_dot_unstuff};
use smtp_relay::encoding::{
    base64_encode, encode_header, quoted_printable_decode, quoted_printable_encode,
};

#[test]
fn dot_stuff_doubles_leading_dots() {
    let body = b"hi\r\n.dot\r\nend";
    let stuffed = client_dot_stuff(body);
    assert_eq!(stuffed, b"hi\r\n..dot\r\nend".to_vec());
}

#[test]
fn dot_stuff_covers_first_byte() {
    let stuffed = client_dot_stuff(b".start");
    assert_eq!(stuffed, b"..start".to_vec());
}

#[test]
fn dot_unstuff_strips_one_dot_per_line() {
    let unstuffed = server_dot_unstuff(b"..a\r\n.b\r\nc");
    assert_eq!(unstuffed, b".a\r\nb\r\nc".to_vec());
}

#[test]
fn dot_stuff_round_trip() {
    let bodies: Vec<&[u8]> = vec![
        b"",
        b".",
        b"plain text",
        b"line\r\n.line\r\n",
        b".\r\n",
        b"a\r\n..\r\n...\r\nb",
    ];
    for body in bodies {
        let stuffed = client_dot_stuff(body);
        assert_eq!(server_dot_unstuff(stuffed.as_slice()), body.to_vec());
    }
}

#[test]
fn base64_matches_reference() {
    let cases: Vec<&[u8]> = vec![b"", b"f", b"fo", b"foo", b"foob", b"fooba", b"foobar",
        b"\x00\xff\x10", b"hello world!"];
    for case in cases {
        let ours = base64_encode(case);
        let reference = base64::engine::general_purpose::STANDARD.encode(case);
        assert_eq!(String::from_utf8(ours).unwrap(), reference);
    }
}

#[test]
fn quoted_printable_round_trip() {
    let cases: Vec<&[u8]> = vec![b"", b"plain", b"=equals=", b"space here", b"\r\n",
        b"\x00\x7f\x80\xff", b"mixed =\r\n bag\t!"];
    for case in cases {
        let enc = quoted_printable_encode(case);
        assert_eq!(quoted_printable_decode(enc.as_slice()), case.to_vec());
    }
}

#[test]
fn quoted_printable_decodes_with_reference_crate() {
    let original = b"caf\xc3\xa9 = tasty\r\n".to_vec();
    let enc = quoted_printable_encode(original.as_slice());
    let decoded = quoted_printable::decode(enc.as_slice(), quoted_printable::ParseMode::Robust)
        .unwrap();
    assert_eq!(decoded, original);
}

#[test]
fn quoted_printable_escapes_unsafe_bytes() {
    let enc = quoted_printable_encode(b"a=b");
    assert_eq!(enc, b"a=3Db".to_vec());
}

#[test]
fn encode_header_ascii_is_identity() {
    assert_eq!(encode_header("Just Ascii"), "Just Ascii");
    assert_eq!(encode_header(""), "");
}

#[test]
fn encode_header_non_ascii_round_trips() {
    let value = "Tst\u{1F984} caf\u{e9}";
    let encoded = encode_header(value);
    assert!(encoded.starts_with("=?utf-8?B?"));
    assert!(encoded.ends_with("?="));
    let mut payload = Vec::new();
    for word in encoded.split("\r\n ") {
        let inner = word
            .strip_prefix("=?utf-8?B?")
            .and_then(|w| w.strip_suffix("?="))
            .unwrap();
        payload.extend(base64::engine::general_purpose::STANDARD.decode(inner).unwrap());
    }
    assert_eq!(String::from_utf8(payload).unwrap(), value);
}

#[test]
fn encode_header_long_value_folds() {
    let value = "\u{e9}".repeat(60);
    let encoded = encode_header(value.as_str());
    assert!(encoded.contains("\r\n "), "long values fold into several words");
    let mut payload = Vec::new();
    for word in encoded.split("\r\n ") {
        let inner = word
            .strip_prefix("=?utf-8?B?")
            .and_then(|w| w.strip_suffix("?="))
            .unwrap();
        payload.extend(base64::engine::general_purpose::STANDARD.decode(inner).unwrap());
    }
    assert_eq!(String::from_utf8(payload).unwrap(), value);
}

#[test]
fn bare_line_feeds_are_outside_the_round_trip() {
    // a dot after a bare LF is unstuffed although stuffing never doubled it,
    // which is why the round-trip law asks for CRLF-only line breaks
    assert_eq!(client_dot_stuff(b"a\n.b"), b"a\n.b".to_vec());
    assert_eq!(server_dot_unstuff(b"a\n.b"), b"a\nb".to_vec());
}
