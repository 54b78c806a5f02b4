use cjson_core::diff::generate_patches;
use cjson_core::merge::generate_merge_patch;
use cjson_core::apply::apply_patch;
use cjson_core::equal::compare_json;
use cjson_core::patch::add_patch_to_array;
use cjson_core::dom::create_array;
use cjson_core::parse::{parse, ParseOpts};
use cjson_core::print::{print, PrintOpts};
use cjson_core::store::{NodeId, SafeStore};

fn saturate_int(number: f64) -> i32 {
    if number >= i32::MAX as f64 {
        i32::MAX
    } else if number <= i32::MIN as f64 {
        i32::MIN
    } else {
        number as i32
    }
}

/// The number text that the library accepted, as the double's bits and saturated int.
fn conv(text: &[u8]) -> (u64, i32) {
    let v: f64 = std::str::from_utf8(text).unwrap().parse().unwrap();
    (v.to_bits(), saturate_int(v))
}

fn compare_double(a: f64, b: f64) -> bool {
    let max_val = a.abs().max(b.abs());
    (a - b).abs() <= max_val * f64::EPSILON
}

fn eq_bits(a: u64, b: u64) -> bool {
    compare_double(f64::from_bits(a), f64::from_bits(b))
}

fn strip_zeros(mant: &str) -> String {
    if !mant.contains('.') {
        return mant.to_string();
    }
    let mut out = mant.to_string();
    while out.ends_with('0') {
        out.pop();
    }
    if out.ends_with('.') {
        out.pop();
    }
    out
}

fn format_g(value: f64, prec: usize) -> String {
    if value == 0.0 {
        return if value.is_sign_negative() { "-0".into() } else { "0".into() };
    }
    let exp = value.abs().log10().floor() as i32;
    if exp < -4 || exp >= prec as i32 {
        let s = format!("{:.*e}", prec - 1, value);
        let (mant, e) = s.split_once('e').unwrap();
        let e: i32 = e.parse().unwrap();
        format!("{}e{:+03}", strip_zeros(mant), e)
    } else {
        let frac = if exp >= 0 { prec.saturating_sub(exp as usize + 1) } else { prec + (-exp) as usize - 1 };
        strip_zeros(&format!("{:.*}", frac, value))
    }
}

fn fmt(bits: u64, valueint: i32) -> Vec<u8> {
    let v = f64::from_bits(bits);
    let s = if !v.is_finite() {
        "null".to_string()
    } else if v == valueint as f64 {
        format!("{valueint}")
    } else {
        let first = format_g(v, 15);
        match first.parse::<f64>() {
            Ok(t) if compare_double(t, v) => first,
            _ => format_g(v, 17),
        }
    };
    s.into_bytes()
}

fn parse_default(s: &mut SafeStore, text: &[u8]) -> NodeId {
    parse(s, text, ParseOpts::default(), &conv).unwrap()
}

fn print_plain(s: &SafeStore, n: NodeId) -> Vec<u8> {
    print(s, n, PrintOpts { format: false }, &fmt).unwrap()
}

fn diff_text(from: &[u8], to: &[u8], cs: bool) -> Vec<u8> {
    let mut s = SafeStore::new();
    let a = parse_default(&mut s, from);
    let b = parse_default(&mut s, to);
    let p = generate_patches(&mut s, a, b, cs, &eq_bits).unwrap();
    print_plain(&s, p)
}

#[test]
fn patches_for_equal_documents_are_empty() {
    assert_eq!(diff_text(b"{\"a\":[1,2],\"b\":\"x\"}", b"{\"b\":\"x\",\"a\":[1,2]}", true), b"[]");
}

#[test]
fn patches_replace_scalars_and_kinds() {
    assert_eq!(diff_text(b"1", b"2", true), b"[{\"op\":\"replace\",\"path\":\"\",\"value\":2}]");
    assert_eq!(diff_text(b"\"a\"", b"\"b\"", true), b"[{\"op\":\"replace\",\"path\":\"\",\"value\":\"b\"}]");
    assert_eq!(diff_text(b"[]", b"{}", true), b"[{\"op\":\"replace\",\"path\":\"\",\"value\":{}}]");
    assert_eq!(diff_text(b"true", b"true", true), b"[]");
}

#[test]
fn patches_walk_arrays_by_index() {
    assert_eq!(
        diff_text(b"[1,2,3]", b"[1,5]", true),
        b"[{\"op\":\"replace\",\"path\":\"/1\",\"value\":5},{\"op\":\"remove\",\"path\":\"/2\"}]"
    );
    // every surplus element is removed at the same index
    assert_eq!(
        diff_text(b"[1,2,3,4]", b"[1]", true),
        b"[{\"op\":\"remove\",\"path\":\"/1\"},{\"op\":\"remove\",\"path\":\"/1\"},{\"op\":\"remove\",\"path\":\"/1\"}]"
    );
    assert_eq!(
        diff_text(b"[1]", b"[1,[2],3]", true),
        b"[{\"op\":\"add\",\"path\":\"/-\",\"value\":[2]},{\"op\":\"add\",\"path\":\"/-\",\"value\":3}]"
    );
}

#[test]
fn patches_walk_objects_in_key_order() {
    assert_eq!(
        diff_text(b"{\"c\":1,\"a\":{\"x\":1},\"b\":2}", b"{\"d\":4,\"a\":{\"x\":2},\"b\":2}", true),
        b"[{\"op\":\"replace\",\"path\":\"/a/x\",\"value\":2},{\"op\":\"remove\",\"path\":\"/c\"},{\"op\":\"add\",\"path\":\"/d\",\"value\":4}]"
    );
}

#[test]
fn patches_encode_keys_in_paths() {
    assert_eq!(
        diff_text(b"{\"a/b\":1}", b"{\"a/b\":2,\"m~n\":3}", true),
        b"[{\"op\":\"replace\",\"path\":\"/a~1b\",\"value\":2},{\"op\":\"add\",\"path\":\"/m~0n\",\"value\":3}]"
    );
}

#[test]
fn patches_key_case_follows_the_flag() {
    assert_eq!(diff_text(b"{\"K\":1}", b"{\"k\":1}", false), b"[]");
    assert_eq!(
        diff_text(b"{\"K\":1}", b"{\"k\":1}", true),
        b"[{\"op\":\"remove\",\"path\":\"/K\"},{\"op\":\"add\",\"path\":\"/k\",\"value\":1}]"
    );
}

#[test]
fn patches_fail_when_allocation_fails() {
    let mut s = SafeStore::new();
    let a = parse_default(&mut s, b"[1]");
    let b = parse_default(&mut s, b"[2]");
    s.fail_allocs = true;
    assert!(generate_patches(&mut s, a, b, true, &eq_bits).is_none());
}

#[test]
fn patches_sort_both_objects_in_place() {
    let mut s = SafeStore::new();
    let a = parse_default(&mut s, b"{\"b\":1,\"a\":2}");
    let b = parse_default(&mut s, b"{\"b\":1,\"a\":2}");
    let p = generate_patches(&mut s, a, b, true, &eq_bits).unwrap();
    assert_eq!(print_plain(&s, p), b"[]");
    assert_eq!(print_plain(&s, a), b"{\"a\":2,\"b\":1}");
    assert_eq!(print_plain(&s, b), b"{\"a\":2,\"b\":1}");
}

#[test]
fn merge_patch_of_objects() {
    let mut s = SafeStore::new();
    let a = parse_default(&mut s, b"{\"b\":1,\"a\":{\"x\":1,\"y\":2},\"c\":3}");
    let b = parse_default(&mut s, b"{\"a\":{\"x\":1,\"y\":5},\"d\":[1],\"c\":3}");
    let p = generate_merge_patch(&mut s, Some(a), Some(b), true, &eq_bits).unwrap();
    assert_eq!(print_plain(&s, p), b"{\"a\":{\"y\":5},\"b\":null,\"d\":[1]}");
}

#[test]
fn merge_patch_of_equal_objects_is_none() {
    let mut s = SafeStore::new();
    let a = parse_default(&mut s, b"{\"b\":1,\"a\":2}");
    let b = parse_default(&mut s, b"{\"a\":2,\"b\":1}");
    assert!(generate_merge_patch(&mut s, Some(a), Some(b), true, &eq_bits).is_none());
    // both objects were sorted in place
    assert_eq!(print_plain(&s, a), b"{\"a\":2,\"b\":1}");
}

#[test]
fn merge_patch_of_non_objects_copies_the_target() {
    let mut s = SafeStore::new();
    let a = parse_default(&mut s, b"[1,2]");
    let b = parse_default(&mut s, b"{\"k\":[3]}");
    let p = generate_merge_patch(&mut s, Some(a), Some(b), true, &eq_bits).unwrap();
    assert_eq!(print_plain(&s, p), b"{\"k\":[3]}");
    assert_ne!(p, b);
    let c = parse_default(&mut s, b"\"text\"");
    let q = generate_merge_patch(&mut s, None, Some(c), true, &eq_bits).unwrap();
    assert_eq!(print_plain(&s, q), b"\"text\"");
    let n = generate_merge_patch(&mut s, Some(c), None, true, &eq_bits).unwrap();
    assert_eq!(print_plain(&s, n), b"null");
}

#[test]
fn merge_patch_walks_keys_by_bytes() {
    let mut s = SafeStore::new();
    let a = parse_default(&mut s, b"{\"K\":1}");
    let b = parse_default(&mut s, b"{\"k\":1}");
    let p = generate_merge_patch(&mut s, Some(a), Some(b), false, &eq_bits).unwrap();
    assert_eq!(print_plain(&s, p), b"{\"K\":null,\"k\":1}");
}

#[test]
fn merge_patch_fails_when_allocation_fails() {
    let mut s = SafeStore::new();
    let a = parse_default(&mut s, b"{\"a\":1}");
    let b = parse_default(&mut s, b"{\"a\":2}");
    s.fail_allocs = true;
    assert!(generate_merge_patch(&mut s, Some(a), Some(b), true, &eq_bits).is_none());
    assert!(generate_merge_patch(&mut s, Some(a), None, true, &eq_bits).is_none());
}

fn apply_text(doc: &[u8], patch: &[u8]) -> (i32, Vec<u8>) {
    let mut s = SafeStore::new();
    let d = parse_default(&mut s, doc);
    let p = parse_default(&mut s, patch);
    let r = apply_patch(&mut s, d, p, true, &eq_bits);
    (r, print_plain(&s, d))
}

#[test]
fn apply_patch_operations() {
    assert_eq!(apply_text(b"{\"a\":1}", b"{\"op\":\"add\",\"path\":\"/b\",\"value\":2}"), (0, b"{\"a\":1,\"b\":2}".to_vec()));
    assert_eq!(apply_text(b"{\"a\":1,\"b\":2}", b"{\"op\":\"remove\",\"path\":\"/a\"}"), (0, b"{\"b\":2}".to_vec()));
    assert_eq!(apply_text(b"{\"a\":1}", b"{\"op\":\"replace\",\"path\":\"/a\",\"value\":[3]}"), (0, b"{\"a\":[3]}".to_vec()));
    assert_eq!(apply_text(b"{\"a\":1,\"b\":[]}", b"{\"op\":\"move\",\"from\":\"/a\",\"path\":\"/b/-\"}"), (0, b"{\"b\":[1]}".to_vec()));
    assert_eq!(apply_text(b"{\"a\":1}", b"{\"op\":\"copy\",\"from\":\"/a\",\"path\":\"/c\"}"), (0, b"{\"a\":1,\"c\":1}".to_vec()));
    assert_eq!(apply_text(b"[1,3]", b"{\"op\":\"add\",\"path\":\"/1\",\"value\":2}"), (0, b"[1,2,3]".to_vec()));
}

#[test]
fn apply_patch_tests_values() {
    assert_eq!(apply_text(b"{\"a\":{\"y\":1,\"x\":2}}", b"{\"op\":\"test\",\"path\":\"/a\",\"value\":{\"x\":2,\"y\":1}}").0, 0);
    assert_eq!(apply_text(b"{\"a\":1}", b"{\"op\":\"test\",\"path\":\"/a\",\"value\":2}").0, 1);
    assert_eq!(apply_text(b"{\"a\":1}", b"{\"op\":\"test\",\"path\":\"/z\",\"value\":1}").0, 1);
}

#[test]
fn apply_patch_status_codes() {
    assert_eq!(apply_text(b"{}", b"{\"op\":\"add\",\"value\":1}").0, 2);
    assert_eq!(apply_text(b"{}", b"{\"op\":\"add\",\"path\":1,\"value\":1}").0, 2);
    assert_eq!(apply_text(b"{}", b"{\"op\":\"frobnicate\",\"path\":\"/a\"}").0, 3);
    assert_eq!(apply_text(b"{\"a\":1}", b"{\"op\":\"move\",\"path\":\"/b\"}").0, 4);
    assert_eq!(apply_text(b"{\"a\":1}", b"{\"op\":\"move\",\"from\":\"/z\",\"path\":\"/b\"}").0, 5);
    assert_eq!(apply_text(b"{\"a\":1}", b"{\"op\":\"add\",\"path\":\"/b\"}").0, 7);
    assert_eq!(apply_text(b"{\"a\":1}", b"{\"op\":\"add\",\"path\":\"/x/y\",\"value\":1}").0, 9);
    assert_eq!(apply_text(b"[1]", b"{\"op\":\"add\",\"path\":\"/5\",\"value\":1}").0, 10);
    assert_eq!(apply_text(b"[1]", b"{\"op\":\"add\",\"path\":\"/x\",\"value\":1}").0, 11);
    assert_eq!(apply_text(b"{\"a\":1}", b"{\"op\":\"remove\",\"path\":\"/z\"}").0, 13);
}

#[test]
fn apply_patch_copy_fails_without_allocation() {
    let mut s = SafeStore::new();
    let d = parse_default(&mut s, b"{\"a\":1}");
    let p6 = parse_default(&mut s, b"{\"op\":\"copy\",\"from\":\"/a\",\"path\":\"/c\"}");
    let p8 = parse_default(&mut s, b"{\"op\":\"add\",\"path\":\"/c\",\"value\":1}");
    s.fail_allocs = true;
    assert_eq!(apply_patch(&mut s, d, p6, true, &eq_bits), 6);
    assert_eq!(apply_patch(&mut s, d, p8, true, &eq_bits), 8);
}

#[test]
fn apply_patch_on_the_whole_document() {
    assert_eq!(apply_text(b"{\"a\":1}", b"{\"op\":\"replace\",\"path\":\"\",\"value\":[1,2]}"), (0, b"[1,2]".to_vec()));
}

#[test]
fn patches_added_to_an_array() {
    let mut s = SafeStore::new();
    let arr = create_array(&mut s).unwrap();
    let v = parse_default(&mut s, b"{\"k\":true}");
    add_patch_to_array(&mut s, arr, b"add", b"/a~b", Some(v));
    add_patch_to_array(&mut s, arr, b"remove", b"/x", None);
    assert_eq!(
        print_plain(&s, arr),
        b"[{\"op\":\"add\",\"path\":\"/a~b\",\"value\":{\"k\":true}},{\"op\":\"remove\",\"path\":\"/x\"}]"
    );
}

#[test]
fn generated_patches_apply_back() {
    let mut s = SafeStore::new();
    let a = parse_default(&mut s, b"{\"a\":1,\"b\":[1,2],\"c\":\"x\"}");
    let b = parse_default(&mut s, b"{\"a\":2,\"b\":[1],\"d\":null}");
    let p = generate_patches(&mut s, a, b, true, &eq_bits).unwrap();
    let mut cur = s.child(p);
    while let Some(op) = cur {
        assert_eq!(apply_patch(&mut s, a, op, true, &eq_bits), 0);
        cur = s.next(op);
    }
    // a replaced member moves to the end; the documents compare equal member by member
    assert_eq!(print_plain(&s, a), b"{\"b\":[1],\"a\":2,\"d\":null}");
    assert!(compare_json(&mut s, Some(a), Some(b), true, &eq_bits));
}

#[test]
fn apply_patch_add_inserts_before_the_index() {
    let mut s = SafeStore::new();
    let o = parse_default(&mut s, b"[1,2]");
    let p = parse_default(&mut s, br#"{"op":"add","path":"/1","value":9}"#);
    assert_eq!(apply_patch(&mut s, o, p, false, &eq_bits), 0);
    assert_eq!(print_plain(&s, o), b"[1,9,2]".to_vec());
    assert_eq!(cjson_core::dom::get_array_size(&s, Some(o)), 3);
}

#[test]
fn apply_patch_failures_leave_the_document() {
    let mut s = SafeStore::new();
    let o = parse_default(&mut s, br#"{"a":1}"#);
    let p1 = parse_default(&mut s, br#"{"op":"add","value":1}"#);
    let p2 = parse_default(&mut s, br#"{"op":"add","path":7}"#);
    let p3 = parse_default(&mut s, br#"{"op":"frob","path":"/a"}"#);
    let p4 = parse_default(&mut s, br#"{"op":"add","path":"/x/y","value":1}"#);
    assert_eq!(apply_patch(&mut s, o, p1, true, &eq_bits), 2);
    assert_eq!(apply_patch(&mut s, o, p2, true, &eq_bits), 2);
    assert_eq!(apply_patch(&mut s, o, p3, true, &eq_bits), 3);
    assert_eq!(apply_patch(&mut s, o, p4, true, &eq_bits), 9);
    assert_eq!(print_plain(&s, o), br#"{"a":1}"#.to_vec());
}

#[test]
fn apply_patch_error_codes_by_condition() {
    assert_eq!(apply_text(b"[1]", br#"{"op":"add","path":"/5","value":0}"#), (10, b"[1]".to_vec()));
    assert_eq!(apply_text(b"[1]", br#"{"op":"add","path":"/x","value":0}"#), (11, b"[1]".to_vec()));
    assert_eq!(apply_text(b"[1]", br#"{"op":"add","path":"/-"}"#), (7, b"[1]".to_vec()));
    assert_eq!(apply_text(b"{\"a\":1}", br#"{"op":"remove","path":"/b"}"#), (13, b"{\"a\":1}".to_vec()));
    assert_eq!(apply_text(b"{\"a\":1}", br#"{"op":"move","path":"/b"}"#), (4, b"{\"a\":1}".to_vec()));
    assert_eq!(apply_text(b"{\"a\":1}", br#"{"op":"move","from":"/z","path":"/b"}"#), (5, b"{\"a\":1}".to_vec()));
    assert_eq!(apply_text(b"{\"a\":1}", br#"{"op":"add","path":"/a","value":5}"#), (0, b"{\"a\":5}".to_vec()));
    assert_eq!(apply_text(b"[1,2]", br#"{"op":"add","path":"/-","value":3}"#), (0, b"[1,2,3]".to_vec()));
    assert_eq!(apply_text(b"[1,2]", br#"{"op":"add","path":"/2","value":3}"#), (0, b"[1,2,3]".to_vec()));
}

#[test]
fn failed_parse_frees_every_node() {
    let mut s = SafeStore::new();
    assert!(parse(&mut s, b"", ParseOpts::default(), &conv).is_err());
    assert_eq!(s.alloc_node(), NodeId::from_raw(1));
    let mut s = SafeStore::new();
    let e = parse(&mut s, b"[1,}", ParseOpts::default(), &conv);
    assert!(e.is_err());
    assert_eq!(s.alloc_node(), NodeId::from_raw(1));
}
