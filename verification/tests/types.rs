use cjson_core::types::{
    bytes_eq_case, c_tolower, case_insensitive_strcmp, is_reference, string_is_const, type_kind,
    ARRAY, IS_REFERENCE, STRING, STRING_IS_CONST,
};

#[test]
fn tolower_ascii() {
    assert_eq!(c_tolower(b'A'), b'a');
    assert_eq!(c_tolower(b'z'), b'z');
    assert_eq!(c_tolower(0xC0), 0xC0);
}

#[test]
fn case_insensitive_nulls_are_unequal() {
    assert_eq!(case_insensitive_strcmp(None, None), 1);
    assert_eq!(case_insensitive_strcmp(Some(b"a"), None), 1);
}

#[test]
fn case_insensitive_match() {
    assert_eq!(case_insensitive_strcmp(Some(b"Foo"), Some(b"foo")), 0);
    assert_ne!(case_insensitive_strcmp(Some(b"Foo"), Some(b"bar")), 0);
}

#[test]
fn case_insensitive_differences() {
    assert_eq!(case_insensitive_strcmp(Some(b"abc"), Some(b"abd")), -1);
    assert_eq!(case_insensitive_strcmp(Some(b"ab"), Some(b"abc")), -(b'c' as i32));
    assert_eq!(case_insensitive_strcmp(Some(b"abC"), Some(b"ab")), b'c' as i32);
}

#[test]
fn bytes_eq_case_modes() {
    assert!(bytes_eq_case(Some(b"Key"), Some(b"Key"), true));
    assert!(!bytes_eq_case(Some(b"Key"), Some(b"key"), true));
    assert!(bytes_eq_case(Some(b"Key"), Some(b"key"), false));
    assert!(!bytes_eq_case(None, None, true));
    assert!(!bytes_eq_case(None, None, false));
}

#[test]
fn type_flags() {
    assert_eq!(type_kind(STRING | IS_REFERENCE), STRING);
    assert!(is_reference(ARRAY | IS_REFERENCE));
    assert!(!is_reference(ARRAY));
    assert!(string_is_const(STRING | STRING_IS_CONST));
    assert!(!string_is_const(STRING));
}
