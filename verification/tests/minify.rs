use cjson_core::minify::minify;

fn minify_str(s: &str) -> String {
    let mut buf = s.as_bytes().to_vec();
    buf.push(0);
    let n = minify(&mut buf);
    String::from_utf8(buf[..n].to_vec()).unwrap()
}

#[test]
fn comments_and_spaces() {
    assert_eq!(minify_str("{// comment\n}"), "{}");
    assert_eq!(minify_str("{ \"key\":\ttrue\r\n    }"), "{\"key\":true}");
    assert_eq!(
        minify_str("{/* this is\n a /* multi\n //line \n {comment \"\\\" */}"),
        "{}"
    );
    assert_eq!(minify_str("/* bla"), "");
    assert_eq!(minify_str("\"\\"), "\"\\");
}

#[test]
fn minify_keeps_string_contents() {
    assert_eq!(minify_str("[ \"a b\" , 1 ]"), "[\"a b\",1]");
    assert_eq!(minify_str("\"a\\\"b c\" d"), "\"a\\\"b c\"d");
}

#[test]
fn minify_drops_lone_slash_and_terminates() {
    let mut buf = b"a / b\0xyz".to_vec();
    let n = minify(&mut buf);
    assert_eq!(n, 2);
    assert_eq!(&buf[..3], b"ab\0");
}

#[test]
fn minify_empty_buffer() {
    let mut buf: Vec<u8> = Vec::new();
    assert_eq!(minify(&mut buf), 0);
}

#[test]
fn minify_without_nul() {
    let mut buf = b" x ".to_vec();
    let n = minify(&mut buf);
    assert_eq!(n, 1);
    assert_eq!(&buf[..2], b"x\0");
}

#[test]
fn minify_leaves_bytes_after_the_terminator() {
    let mut buf = b"[ 1 ]\0abc".to_vec();
    let n = minify(&mut buf);
    assert_eq!(n, 3);
    assert_eq!(&buf[..4], b"[1]\0");
    assert_eq!(&buf[5..], b"\0abc");
}

#[test]
fn minify_of_minified_text_changes_nothing() {
    let mut buf = b"{ \"a\" : [1, 2] } // x\0".to_vec();
    let n1 = minify(&mut buf);
    let b1 = buf.clone();
    assert_eq!(minify(&mut buf), n1);
    assert_eq!(buf, b1);
}
