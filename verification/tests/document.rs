use cjson_core::compare::compare;
use cjson_core::dup::duplicate;
use cjson_core::equal::compare_json;
use cjson_core::store::{key_owned, valuestring_owned};
use cjson_core::number::{parse_number, scan_number_token, strtod_prefix};
use cjson_core::parse::{parse, parse_with_end, ParseOpts};
use cjson_core::print::{print, print_preallocated, PrintOpts};
use cjson_core::store::{NodeId, SafeStore};
use cjson_core::types;

fn saturate_int(number: f64) -> i32 {
    if number >= i32::MAX as f64 {
        i32::MAX
    } else if number <= i32::MIN as f64 {
        i32::MIN
    } else {
        number as i32
    }
}

/// The number text that the library accepted, as the double's bits and saturated int.
fn conv(text: &[u8]) -> (u64, i32) {
    let v: f64 = std::str::from_utf8(text).unwrap().parse().unwrap();
    (v.to_bits(), saturate_int(v))
}

fn compare_double(a: f64, b: f64) -> bool {
    let max_val = a.abs().max(b.abs());
    (a - b).abs() <= max_val * f64::EPSILON
}

fn eq_bits(a: u64, b: u64) -> bool {
    compare_double(f64::from_bits(a), f64::from_bits(b))
}

fn strip_zeros(mant: &str) -> String {
    if !mant.contains('.') {
        return mant.to_string();
    }
    let mut out = mant.to_string();
    while out.ends_with('0') {
        out.pop();
    }
    if out.ends_with('.') {
        out.pop();
    }
    out
}

fn format_g(value: f64, prec: usize) -> String {
    if value == 0.0 {
        return if value.is_sign_negative() { "-0".into() } else { "0".into() };
    }
    let exp = value.abs().log10().floor() as i32;
    if exp < -4 || exp >= prec as i32 {
        let s = format!("{:.*e}", prec - 1, value);
        let (mant, e) = s.split_once('e').unwrap();
        let e: i32 = e.parse().unwrap();
        format!("{}e{:+03}", strip_zeros(mant), e)
    } else {
        let frac = if exp >= 0 { prec.saturating_sub(exp as usize + 1) } else { prec + (-exp) as usize - 1 };
        strip_zeros(&format!("{:.*}", frac, value))
    }
}

fn fmt(bits: u64, valueint: i32) -> Vec<u8> {
    let v = f64::from_bits(bits);
    let s = if !v.is_finite() {
        "null".to_string()
    } else if v == valueint as f64 {
        format!("{valueint}")
    } else {
        let first = format_g(v, 15);
        match first.parse::<f64>() {
            Ok(t) if compare_double(t, v) => first,
            _ => format_g(v, 17),
        }
    };
    s.into_bytes()
}

fn parse_default(s: &mut SafeStore, text: &[u8]) -> NodeId {
    parse(s, text, ParseOpts::default(), &conv).unwrap()
}

fn print_plain(s: &SafeStore, n: NodeId) -> Vec<u8> {
    print(s, n, PrintOpts { format: false }, &fmt).unwrap()
}

#[test]
fn parse_literals() {
    let mut s = SafeStore::new();
    let n = parse(&mut s, b"null", ParseOpts::default(), &conv).unwrap();
    assert_eq!(s.ty(n), types::NULL);
    let n = parse(&mut s, b"true", ParseOpts::default(), &conv).unwrap();
    assert_eq!(s.ty(n), types::TRUE);
    assert_eq!(s.valueint(n), 1);
    let n = parse(&mut s, b"false", ParseOpts::default(), &conv).unwrap();
    assert_eq!(s.ty(n), types::FALSE);
}

#[test]
fn parse_array_object() {
    let mut s = SafeStore::new();
    let n = parse(&mut s, b"[1,2]", ParseOpts::default(), &conv).unwrap();
    assert_eq!(s.ty(n), types::ARRAY);
    let printed = print(&s, n, PrintOpts { format: false }, &fmt).unwrap();
    assert_eq!(printed, b"[1,2]");

    let n = parse(&mut s, b"{\"a\":true}", ParseOpts::default(), &conv).unwrap();
    let printed = print(&s, n, PrintOpts { format: false }, &fmt).unwrap();
    assert_eq!(printed, b"{\"a\":true}");
}

#[test]
fn empty_fails() {
    let mut s = SafeStore::new();
    assert!(parse(&mut s, b"", ParseOpts::default(), &conv).is_err());
}

#[test]
fn nesting_limit() {
    let mut deep = String::new();
    for _ in 0..1001 {
        deep.push('[');
    }
    for _ in 0..1001 {
        deep.push(']');
    }
    let mut s = SafeStore::new();
    assert!(parse(&mut s, deep.as_bytes(), ParseOpts::default(), &conv).is_err());
}

#[test]
fn formatted_object_uses_tabs() {
    let mut s = SafeStore::new();
    let n = parse(&mut s, b"{\"a\":1}", ParseOpts::default(), &conv).unwrap();
    let printed = print(&s, n, PrintOpts { format: true }, &fmt).unwrap();
    assert_eq!(printed, b"{\n\t\"a\":\t1\n}");
}

#[test]
fn unformatted_array() {
    let mut s = SafeStore::new();
    let n = parse(&mut s, b"[true,false,null]", ParseOpts::default(), &conv).unwrap();
    let printed = print(&s, n, PrintOpts { format: false }, &fmt).unwrap();
    assert_eq!(printed, b"[true,false,null]");
}

#[test]
fn parse_basic_ints() {
    let mut s = SafeStore::new();
    let n = s.alloc_node().unwrap();
    let off = parse_number(&mut s, n, b"2147483647", 0, &conv).unwrap();
    assert_eq!(off, 10);
    assert_eq!(s.valueint(n), i32::MAX);
    assert_eq!(f64::from_bits(s.valuedouble(n)), 2147483647.0);
}

#[test]
fn parse_reals_and_saturation() {
    let mut s = SafeStore::new();
    let n = s.alloc_node().unwrap();
    parse_number(&mut s, n, b"10e10", 0, &conv).unwrap();
    assert_eq!(s.valueint(n), i32::MAX);
    assert_eq!(f64::from_bits(s.valuedouble(n)), 10e10);

    parse_number(&mut s, n, b"-10e20", 0, &conv).unwrap();
    assert_eq!(s.valueint(n), i32::MIN);
    assert_eq!(f64::from_bits(s.valuedouble(n)), -10e20);

    parse_number(&mut s, n, b"-0", 0, &conv).unwrap();
    assert_eq!(s.valueint(n), 0);
    assert_eq!(f64::from_bits(s.valuedouble(n)), -0.0);

    parse_number(&mut s, n, b"0.001", 0, &conv).unwrap();
    assert_eq!(s.valueint(n), 0);
    assert_eq!(f64::from_bits(s.valuedouble(n)), 0.001);
}

#[test]
fn number_token_scan_and_prefix() {
    assert_eq!(scan_number_token(b"12.5e+3,", 0), (7, true));
    assert_eq!(scan_number_token(b"x-1", 1), (3, false));
    assert_eq!(scan_number_token(b"-1.5e+3,", 0), (7, true));
    assert_eq!(scan_number_token(b"12", 2), (2, false));
    assert_eq!(scan_number_token(b"12", 9), (9, false));
    assert_eq!(strtod_prefix(b"1e"), Some(1));
    assert_eq!(strtod_prefix(b"-.5x"), Some(3));
    assert_eq!(strtod_prefix(b"+"), None);
    assert_eq!(strtod_prefix(b"1.5e-2"), Some(6));
}

#[test]
fn parse_number_rejects_what_strtod_rejects() {
    let mut s = SafeStore::new();
    let n = s.alloc_node().unwrap();
    assert_eq!(parse_number(&mut s, n, b"-", 0, &conv), None);
    assert_eq!(parse_number(&mut s, n, b"abc", 0, &conv), None);
    // trailing junk that the scan takes but strtod does not stays unread
    assert_eq!(parse_number(&mut s, n, b"1e+", 0, &conv), Some(1));
}

#[test]
fn parse_reports_error_offsets() {
    let mut s = SafeStore::new();
    let e = parse(&mut s, b"[1,]", ParseOpts::default(), &conv).unwrap_err();
    assert_eq!(e.offset, 3);
    let e = parse(&mut s, b"{\"a\" 1}", ParseOpts::default(), &conv).unwrap_err();
    assert_eq!(e.offset, 5);
    let e = parse(&mut s, b"nul", ParseOpts::default(), &conv).unwrap_err();
    assert_eq!(e.offset, 0);
}

#[test]
fn parse_with_end_and_null_termination() {
    let mut s = SafeStore::new();
    let (n, end) = parse_with_end(&mut s, b"  [1] tail", ParseOpts::default(), &conv).unwrap();
    assert_eq!(s.ty(n), types::ARRAY);
    assert_eq!(end, 5);
    let strict = ParseOpts { require_null_terminated: true, decimal_point: b'.' };
    assert!(parse(&mut s, b"[1] tail", strict, &conv).is_err());
    assert!(parse(&mut s, b"[1]  \0", strict, &conv).is_ok());
}

#[test]
fn parse_skips_byte_order_mark() {
    let mut s = SafeStore::new();
    let n = parse(&mut s, b"\xEF\xBB\xBF{\"k\":\"v\"}", ParseOpts::default(), &conv).unwrap();
    assert_eq!(print_plain(&s, n), b"{\"k\":\"v\"}");
}

#[test]
fn failed_parse_leaves_store_usable() {
    let mut s = SafeStore::new();
    assert!(parse(&mut s, b"[1,2,{\"a\":[true,", ParseOpts::default(), &conv).is_err());
    let n = parse_default(&mut s, b"[3]");
    assert_eq!(print_plain(&s, n), b"[3]");
}

#[test]
fn parse_fails_when_allocation_fails() {
    let mut s = SafeStore::new();
    s.fail_allocs = true;
    assert!(parse(&mut s, b"[1]", ParseOpts::default(), &conv).is_err());
}

#[test]
fn print_then_parse_round_trip() {
    let text: &[u8] = b"{\"a\":[1,2.5,-3e-07,\"x\\ny\"],\"b\":{\"c\":null,\"d\":false},\"e\":[]}";
    let mut s = SafeStore::new();
    let n = parse_default(&mut s, text);
    let once = print_plain(&s, n);
    assert_eq!(once, text);
    let m = parse_default(&mut s, &once);
    assert_eq!(print_plain(&s, m), once);
}

#[test]
fn formatted_nested_output() {
    let mut s = SafeStore::new();
    let n = parse_default(&mut s, b"{\"a\":[1,{}],\"b\":{}}");
    let printed = print(&s, n, PrintOpts { format: true }, &fmt).unwrap();
    assert_eq!(printed, b"{\n\t\"a\":\t[1, {\n\t\t}],\n\t\"b\":\t{\n\t}\n}".to_vec());
}

#[test]
fn print_preallocated_fits_or_fails() {
    let mut s = SafeStore::new();
    let n = parse_default(&mut s, b"[true,null]");
    let mut big = vec![0xAAu8; 32];
    assert!(print_preallocated(&s, n, &mut big, false, &fmt));
    assert_eq!(&big[..12], b"[true,null]\0");
    let mut small = vec![0u8; 11];
    assert!(!print_preallocated(&s, n, &mut small, false, &fmt));
}

#[test]
fn compare_values() {
    let mut s = SafeStore::new();
    let a = parse_default(&mut s, b"{\"x\":[1,2],\"y\":\"s\"}");
    let b = parse_default(&mut s, b"{\"y\":\"s\",\"x\":[1,2]}");
    let c = parse_default(&mut s, b"{\"X\":[1,2],\"y\":\"s\"}");
    let d = parse_default(&mut s, b"{\"x\":[1,3],\"y\":\"s\"}");
    assert!(compare(&s, a, b, true, &eq_bits));
    assert!(!compare(&s, a, c, true, &eq_bits));
    assert!(compare(&s, a, c, false, &eq_bits));
    assert!(!compare(&s, a, d, true, &eq_bits));
    assert!(compare(&s, a, a, true, &eq_bits));
}

#[test]
fn duplicate_copies_deeply() {
    let mut s = SafeStore::new();
    let a = parse_default(&mut s, b"{\"k\":[1,\"two\",{\"z\":null}]}");
    let d = duplicate(&mut s, a, true).unwrap();
    assert_ne!(d, a);
    assert_eq!(print_plain(&s, d), print_plain(&s, a));
    assert!(compare(&s, a, d, true, &eq_bits));
    let shallow = duplicate(&mut s, a, false).unwrap();
    assert_eq!(print_plain(&s, shallow), b"{}");
}

#[test]
fn duplicate_fails_when_allocation_fails() {
    let mut s = SafeStore::new();
    let a = parse_default(&mut s, b"[1]");
    s.fail_allocs = true;
    assert_eq!(duplicate(&mut s, a, true), None);
}

#[test]
fn compare_json_sorts_objects_first() {
    let mut s = SafeStore::new();
    let a = parse_default(&mut s, b"{\"b\":[1,{\"y\":2,\"x\":1}],\"a\":\"s\"}");
    let b = parse_default(&mut s, b"{\"a\":\"s\",\"b\":[1,{\"x\":1,\"y\":2}]}");
    assert!(compare_json(&mut s, Some(a), Some(b), true, &eq_bits));
    // both objects are now in key order
    assert_eq!(print_plain(&s, a), b"{\"a\":\"s\",\"b\":[1,{\"x\":1,\"y\":2}]}");
    assert_eq!(print_plain(&s, b), print_plain(&s, a));
}

#[test]
fn compare_json_finds_differences() {
    let mut s = SafeStore::new();
    let a = parse_default(&mut s, b"[1,2,3]");
    let b = parse_default(&mut s, b"[1,2]");
    assert!(!compare_json(&mut s, Some(a), Some(b), true, &eq_bits));
    let c = parse_default(&mut s, b"{\"K\":1}");
    let d = parse_default(&mut s, b"{\"k\":1}");
    assert!(!compare_json(&mut s, Some(c), Some(d), true, &eq_bits));
    assert!(compare_json(&mut s, Some(c), Some(d), false, &eq_bits));
    let e = parse_default(&mut s, b"\"x\"");
    let f = parse_default(&mut s, b"1");
    assert!(!compare_json(&mut s, Some(e), Some(f), true, &eq_bits));
    assert!(!compare_json(&mut s, None, Some(f), true, &eq_bits));
}

#[test]
fn owned_copies_of_strings() {
    let mut s = SafeStore::new();
    let n = parse_default(&mut s, b"{\"key\":\"value\"}");
    let c = s.child(n).unwrap();
    assert_eq!(key_owned(&s, c), Some(b"key".to_vec()));
    assert_eq!(valuestring_owned(&s, c), Some(b"value".to_vec()));
    assert_eq!(key_owned(&s, n), None);
}

#[test]
fn steal_into_moves_a_value() {
    let mut s = SafeStore::new();
    let dest = parse_default(&mut s, b"{\"old\":[1,2]}");
    let src = parse_default(&mut s, b"[true]");
    s.steal_into(dest, src);
    assert_eq!(print_plain(&s, dest), b"[true]");
}
