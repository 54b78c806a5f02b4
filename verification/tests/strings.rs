use cjson_core::store::SafeStore;
use cjson_core::string::{escape_string, parse_hex4, parse_string, utf16_literal_to_utf8};

fn parse_ok(literal: &str) -> Vec<u8> {
    let mut s = SafeStore::new();
    let n = s.alloc_node().unwrap();
    let input = literal.as_bytes();
    let end = parse_string(&mut s, n, input, 0).unwrap();
    assert_eq!(end, input.len());
    s.valuestring_bytes(n).unwrap().to_vec()
}

#[test]
fn hex4() {
    assert_eq!(parse_hex4(b"0000"), Some(0));
    assert_eq!(parse_hex4(b"FFFF"), Some(0xFFFF));
    assert_eq!(parse_hex4(b"abcd"), Some(0xABCD));
}

#[test]
fn parse_fixtures() {
    assert_eq!(parse_ok("\"\""), b"");
    assert_eq!(
        parse_ok("\"\\\"\\\\\\/\\b\\f\\n\\r\\t\\u20AC\\u732b\""),
        "\"\\/\u{0008}\u{000c}\n\r\t€猫".as_bytes()
    );
    assert_eq!(parse_ok("\"\\uD83D\\udc31\""), "🐱".as_bytes());
    assert_eq!(parse_ok("\"\u{0008}\u{000c}\n\r\t\""), b"\x08\x0c\n\r\t");
}

#[test]
fn reject_bad() {
    let mut s = SafeStore::new();
    let n = s.alloc_node().unwrap();
    assert!(parse_string(&mut s, n, b"this\" is not a string\"", 0).is_err());
    assert!(parse_string(&mut s, n, b"", 0).is_err());
    assert!(parse_string(&mut s, n, b"\"000000000000000000\\", 0).is_err());
}

#[test]
fn bug_94() {
    let got = parse_ok("\"~!@\\\\#$%^&*()\\\\\\\\-\\\\+{}[]:\\\\;\\\\\\\"\\\\<\\\\>?/.,DC=ad,DC=com\"");
    assert_eq!(got, b"~!@\\#$%^&*()\\\\-\\+{}[]:\\;\\\"\\<\\>?/.,DC=ad,DC=com");
}

#[test]
fn hex4_non_hex_and_short_input() {
    // a non-hex digit reads as zero
    assert_eq!(parse_hex4(b"12G4"), Some(0));
    assert_eq!(parse_hex4(b"12"), None);
    assert_eq!(parse_hex4(b"00e9xyz"), Some(0xE9));
}

#[test]
fn utf16_escapes_to_utf8() {
    assert_eq!(utf16_literal_to_utf8(b"\\u0041"), Some((vec![0x41], 6)));
    assert_eq!(utf16_literal_to_utf8(b"\\u00e9"), Some((vec![0xC3, 0xA9], 6)));
    assert_eq!(utf16_literal_to_utf8(b"\\u20AC"), Some((vec![0xE2, 0x82, 0xAC], 6)));
    assert_eq!(
        utf16_literal_to_utf8(b"\\uD83D\\uDC31"),
        Some((vec![0xF0, 0x9F, 0x90, 0xB1], 12))
    );
    // a lone high surrogate, and a low surrogate first, are refused
    assert_eq!(utf16_literal_to_utf8(b"\\uD83D"), None);
    assert_eq!(utf16_literal_to_utf8(b"\\uDC31"), None);
}

#[test]
fn parse_string_errors_report_offsets() {
    let mut s = SafeStore::new();
    let n = s.alloc_node().unwrap();
    // unterminated: nothing closes the string
    assert!(parse_string(&mut s, n, b"\"abc", 0).is_err());
    // a string at an offset
    let end = parse_string(&mut s, n, b"xx\"ab\"yy", 2).unwrap();
    assert_eq!(end, 6);
    assert_eq!(s.valuestring_bytes(n).unwrap(), b"ab");
}

#[test]
fn parse_string_fails_when_allocation_fails() {
    let mut s = SafeStore::new();
    let n = s.alloc_node().unwrap();
    s.fail_allocs = true;
    assert!(parse_string(&mut s, n, b"\"ok\"", 0).is_err());
}

#[test]
fn escape_string_quotes_and_escapes() {
    assert_eq!(escape_string(None), b"\"\"".to_vec());
    assert_eq!(escape_string(Some(b"")), b"\"\"".to_vec());
    assert_eq!(escape_string(Some(b"abc")), b"\"abc\"".to_vec());
    assert_eq!(
        escape_string(Some(b"\"\\\x08\x0c\n\r\t")),
        b"\"\\\"\\\\\\b\\f\\n\\r\\t\"".to_vec()
    );
    assert_eq!(escape_string(Some(b"\x01/")), b"\"\\u0001/\"".to_vec());
}

#[test]
fn escape_then_parse_round_trip() {
    let raw: &[u8] = b"a\"b\\c\nd\x02e/f";
    let escaped = escape_string(Some(raw));
    let mut s = SafeStore::new();
    let n = s.alloc_node().unwrap();
    let end = parse_string(&mut s, n, &escaped, 0).unwrap();
    assert_eq!(end, escaped.len());
    assert_eq!(s.valuestring_bytes(n).unwrap(), raw);
}
