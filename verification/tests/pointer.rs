use cjson_core::dom::{create_array, create_null, create_object, get_array_size, is_null};
use cjson_core::members::add_true_to_object;
use cjson_core::parse::{parse, ParseOpts};
use cjson_core::patch::{
    decode_patch_operation, detach_item_from_array_usize, detach_path, insert_item_in_array_usize, PatchOp,
};
use cjson_core::pointer::{
    compare_pointers, decode_array_index, decode_pointer, encode_string_as_pointer, pointer_encoded_length,
};
use cjson_core::store::{NodeId, SafeStore};
use cjson_core::utils::{compare_strings, decimal_text, find_pointer_from_object_to, get_item_from_pointer, sort_list, sort_object};

fn saturate_int(number: f64) -> i32 {
    if number >= i32::MAX as f64 {
        i32::MAX
    } else if number <= i32::MIN as f64 {
        i32::MIN
    } else {
        number as i32
    }
}

fn conv(text: &[u8]) -> (u64, i32) {
    let v: f64 = std::str::from_utf8(text).unwrap().parse().unwrap();
    (v.to_bits(), saturate_int(v))
}

fn parse_default(s: &mut SafeStore, text: &[u8]) -> NodeId {
    parse(s, text, ParseOpts::default(), &conv).unwrap()
}

fn keys(s: &SafeStore, obj: NodeId) -> Vec<Vec<u8>> {
    let mut out = Vec::new();
    let mut c = s.child(obj);
    while let Some(n) = c {
        out.push(s.key_bytes(n).unwrap_or(b"").to_vec());
        c = s.next(n);
    }
    out
}

#[test]
fn pointer_and_sort() {
    let mut s = SafeStore::new();
    let root = parse(&mut s, b"{\"b\":1,\"a\":2}", ParseOpts::default(), &conv).unwrap();
    sort_object(&mut s, root, true);
    let first = s.child(root).unwrap();
    assert_eq!(s.key_bytes(first), Some(&b"a"[..]));
    let p = get_item_from_pointer(&s, Some(root), b"/a", true).unwrap();
    assert_eq!(f64::from_bits(s.valuedouble(p)), 2.0);
}

#[test]
fn pointer_tokens_encode_and_decode() {
    assert_eq!(encode_string_as_pointer(b"a/b~c"), b"a~1b~0c".to_vec());
    assert_eq!(pointer_encoded_length(b"a/b~c"), 7);
    assert_eq!(decode_pointer(b"a~1b~0c"), b"a/b~c".to_vec());
    assert_eq!(decode_pointer(b"~2x"), b"~2x".to_vec());
    let raw: &[u8] = b"~/~~//";
    assert_eq!(decode_pointer(&encode_string_as_pointer(raw)), raw.to_vec());
}

#[test]
fn pointer_token_matching() {
    assert!(compare_pointers(Some(b"a/b"), b"a~1b", true));
    assert!(compare_pointers(Some(b"key"), b"key/rest", true));
    assert!(!compare_pointers(Some(b"Key"), b"key", true));
    assert!(compare_pointers(Some(b"Key"), b"key", false));
    assert!(!compare_pointers(None, b"key", true));
}

#[test]
fn array_index_tokens() {
    assert_eq!(decode_array_index(b"0"), Some(0));
    assert_eq!(decode_array_index(b"12"), Some(12));
    assert_eq!(decode_array_index(b"01"), None);
    assert_eq!(decode_array_index(b"1a"), None);
    assert_eq!(decode_array_index(b""), Some(0));
    assert_eq!(decode_array_index(b"7/x"), Some(7));
}

#[test]
fn pointer_walks_arrays_and_objects() {
    let mut s = SafeStore::new();
    let root = parse_default(&mut s, b"{\"a\":[10,{\"b~/c\":null}],\"\":true}");
    let ten = get_item_from_pointer(&s, Some(root), b"/a/0", true).unwrap();
    assert_eq!(s.valueint(ten), 10);
    let n = get_item_from_pointer(&s, Some(root), b"/a/1/b~0~1c", true).unwrap();
    assert!(is_null(&s, Some(n)));
    assert_eq!(get_item_from_pointer(&s, Some(root), b"", true), Some(root));
    assert_eq!(get_item_from_pointer(&s, Some(root), b"/a/2", true), None);
    assert_eq!(get_item_from_pointer(&s, Some(root), b"/A", true), None);
    assert!(get_item_from_pointer(&s, Some(root), b"/A", false).is_some());
    assert_eq!(get_item_from_pointer(&s, None, b"/a", true), None);
}

#[test]
fn find_pointer_then_follow_it() {
    let mut s = SafeStore::new();
    let root = parse_default(&mut s, b"{\"x\":[1,{\"y/z\":false}]}");
    let target = get_item_from_pointer(&s, Some(root), b"/x/1/y~1z", true).unwrap();
    let path = find_pointer_from_object_to(&s, root, target).unwrap();
    assert_eq!(path, b"/x/1/y~1z".to_vec());
    assert_eq!(get_item_from_pointer(&s, Some(root), &path, true), Some(target));
    assert_eq!(find_pointer_from_object_to(&s, root, root), Some(Vec::new()));
    let other = create_null(&mut s).unwrap();
    assert_eq!(find_pointer_from_object_to(&s, root, other), None);
}

#[test]
fn decimal_texts() {
    assert_eq!(decimal_text(0), b"0".to_vec());
    assert_eq!(decimal_text(907), b"907".to_vec());
}

#[test]
fn key_comparison() {
    assert_eq!(compare_strings(Some(b"a"), Some(b"b"), true), -1);
    assert_eq!(compare_strings(Some(b"b"), Some(b"a"), true), 1);
    assert_eq!(compare_strings(Some(b"A"), Some(b"a"), false), 0);
    assert!(compare_strings(Some(b"A"), Some(b"a"), true) < 0);
    assert_eq!(compare_strings(None, Some(b"a"), true), 1);
}

#[test]
fn sorting_objects_by_key() {
    let mut s = SafeStore::new();
    let root = parse_default(&mut s, b"{\"c\":1,\"a\":2,\"b\":3,\"a\":4}");
    sort_object(&mut s, root, true);
    assert_eq!(keys(&s, root), vec![b"a".to_vec(), b"a".to_vec(), b"b".to_vec(), b"c".to_vec()]);
    // equal keys keep their order
    let first = s.child(root).unwrap();
    let second = s.next(first).unwrap();
    assert_eq!(s.valueint(first), 2);
    assert_eq!(s.valueint(second), 4);
    let head = s.child(root);
    assert_eq!(sort_list(&mut s, head, true), head);
    assert_eq!(sort_list(&mut s, None, true), None);
}

#[test]
fn patch_operations_by_name() {
    let mut s = SafeStore::new();
    let cases: [(&[u8], PatchOp); 8] = [
        (b"{\"op\":\"add\"}", PatchOp::Add),
        (b"{\"op\":\"remove\"}", PatchOp::Remove),
        (b"{\"op\":\"replace\"}", PatchOp::Replace),
        (b"{\"op\":\"move\"}", PatchOp::Move),
        (b"{\"op\":\"copy\"}", PatchOp::Copy),
        (b"{\"op\":\"test\"}", PatchOp::Test),
        (b"{\"op\":\"nope\"}", PatchOp::Invalid),
        (b"{\"op\":1}", PatchOp::Invalid),
    ];
    for (text, op) in cases {
        let p = parse_default(&mut s, text);
        assert_eq!(decode_patch_operation(&s, p, true), op);
    }
    let p = parse_default(&mut s, b"{\"OP\":\"add\"}");
    assert_eq!(decode_patch_operation(&s, p, true), PatchOp::Invalid);
    assert_eq!(decode_patch_operation(&s, p, false), PatchOp::Add);
}

#[test]
fn detaching_by_path() {
    let mut s = SafeStore::new();
    let root = parse_default(&mut s, b"{\"a\":[1,2,3],\"b\":{\"c\":true}}");
    let two = detach_path(&mut s, root, b"/a/1", true).unwrap();
    assert_eq!(s.valueint(two), 2);
    let a = get_item_from_pointer(&s, Some(root), b"/a", true).unwrap();
    assert_eq!(get_array_size(&s, Some(a)), 2);
    let c = detach_path(&mut s, root, b"/b/c", true).unwrap();
    assert_eq!(s.next(c), None);
    assert_eq!(detach_path(&mut s, root, b"/b/c", true), None);
    assert_eq!(detach_path(&mut s, root, b"/a/9", true), None);
    assert_eq!(detach_path(&mut s, root, b"nothing", true), None);
}

#[test]
fn array_edits_by_unsigned_index() {
    let mut s = SafeStore::new();
    let arr = create_array(&mut s).unwrap();
    let x = create_null(&mut s).unwrap();
    let y = create_null(&mut s).unwrap();
    assert!(insert_item_in_array_usize(&mut s, arr, 0, x));
    assert!(!insert_item_in_array_usize(&mut s, arr, 5, y));
    assert!(insert_item_in_array_usize(&mut s, arr, 0, y));
    assert_eq!(s.child(arr), Some(y));
    assert_eq!(detach_item_from_array_usize(&mut s, arr, 1), Some(x));
    assert_eq!(detach_item_from_array_usize(&mut s, arr, 1), None);
    let obj = create_object(&mut s).unwrap();
    add_true_to_object(&mut s, obj, b"t").unwrap();
    assert_eq!(get_array_size(&s, Some(obj)), 1);
}
