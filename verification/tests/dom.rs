use cjson_core::arrays::{create_double_array, create_int_array, create_string_array, int_to_double_bits};
use cjson_core::dom::{
    add_item_to_array, add_item_to_object, create_array, create_bool, create_false, create_null, create_number,
    create_object, create_reference, create_string, create_string_reference, create_true, detach_item_from_array,
    detach_item_from_object, detach_item_via_pointer, get_array_item, get_array_size, get_object_item,
    insert_item_in_array, is_array, is_bool, is_false, is_invalid, is_null, is_number, is_object, is_raw,
    is_string, is_true, set_valuestring,
};
use cjson_core::members::{
    add_array_to_object, add_bool_to_object, add_false_to_object, add_null_to_object, add_number_to_object,
    add_object_to_object, add_raw_to_object, add_string_to_object, add_true_to_object,
};
use cjson_core::replace::{replace_item_in_object, replace_item_via_pointer};
use cjson_core::store::{NodeId, SafeStore};
use cjson_core::types;

fn keys(s: &SafeStore, obj: NodeId) -> Vec<Vec<u8>> {
    let mut out = Vec::new();
    let mut c = s.child(obj);
    while let Some(n) = c {
        out.push(s.key_bytes(n).unwrap_or(b"").to_vec());
        c = s.next(n);
    }
    out
}

fn kids(s: &SafeStore, p: NodeId) -> Vec<NodeId> {
    let mut out = Vec::new();
    let mut c = s.child(p);
    while let Some(n) = c {
        out.push(n);
        c = s.next(n);
    }
    out
}

#[test]
fn add_and_get() {
    let mut s = SafeStore::new();
    let obj = create_object(&mut s).unwrap();
    add_number_to_object(&mut s, obj, b"n", 3.0f64.to_bits(), 3).unwrap();
    let item = get_object_item(&s, Some(obj), Some(b"N"), false).unwrap();
    assert_eq!(f64::from_bits(s.valuedouble(item)), 3.0);
    assert_eq!(get_array_size(&s, Some(obj)), 1);
}

#[test]
fn detach() {
    let mut s = SafeStore::new();
    let arr = create_array(&mut s).unwrap();
    let a = create_null(&mut s).unwrap();
    let b = create_true(&mut s).unwrap();
    add_item_to_array(&mut s, arr, a);
    add_item_to_array(&mut s, arr, b);
    let d = detach_item_from_array(&mut s, arr, 0).unwrap();
    assert_eq!(d, a);
    assert_eq!(get_array_size(&s, Some(arr)), 1);
}

#[test]
fn alloc_and_delete_tree() {
    let mut s = SafeStore::new();
    let root = s.alloc_node().unwrap();
    s.set_ty(root, types::ARRAY);
    let child = s.alloc_node().unwrap();
    s.set_ty(child, types::NULL);
    s.set_child(root, Some(child));
    s.delete(Some(root));
    assert!(s.alloc_node().is_some());
}

#[test]
fn fail_allocs() {
    let mut s = SafeStore::new();
    s.fail_allocs = true;
    assert!(s.alloc_node().is_none());
}

#[test]
fn created_nodes_have_their_kinds() {
    let mut s = SafeStore::new();
    let n = create_null(&mut s).unwrap();
    let t = create_true(&mut s).unwrap();
    let f = create_false(&mut s).unwrap();
    let b = create_bool(&mut s, true).unwrap();
    let num = create_number(&mut s, 2.5f64.to_bits(), 2).unwrap();
    let st = create_string(&mut s, b"hi").unwrap();
    let arr = create_array(&mut s).unwrap();
    let obj = create_object(&mut s).unwrap();
    assert!(is_null(&s, Some(n)));
    assert!(is_true(&s, Some(t)) && is_bool(&s, Some(t)));
    assert!(is_false(&s, Some(f)) && is_bool(&s, Some(f)));
    assert!(is_true(&s, Some(b)));
    assert!(is_number(&s, Some(num)));
    assert_eq!(s.valueint(num), 2);
    assert!(is_string(&s, Some(st)));
    assert_eq!(s.valuestring_bytes(st), Some(&b"hi"[..]));
    assert!(is_array(&s, Some(arr)) && is_object(&s, Some(obj)));
    assert!(!is_invalid(&s, Some(arr)) && !is_raw(&s, Some(arr)) && !is_null(&s, None));
}

#[test]
fn creation_fails_when_allocation_fails() {
    let mut s = SafeStore::new();
    s.fail_allocs = true;
    assert_eq!(create_null(&mut s), None);
    assert_eq!(create_string(&mut s, b"x"), None);
    assert_eq!(create_int_array(&mut s, &[1, 2]), None);
    let mut s2 = SafeStore::new();
    let obj = create_object(&mut s2).unwrap();
    s2.fail_allocs = true;
    assert_eq!(add_null_to_object(&mut s2, obj, b"a"), None);
    assert_eq!(get_array_size(&s2, Some(obj)), 0);
}

#[test]
fn references_share_and_flag() {
    let mut s = SafeStore::new();
    let st = create_string_reference(&mut s, b"ref").unwrap();
    assert_eq!(s.ty(st), types::STRING | types::IS_REFERENCE);
    let obj = create_object(&mut s).unwrap();
    add_true_to_object(&mut s, obj, b"t").unwrap();
    let r = create_reference(&mut s, obj).unwrap();
    assert_eq!(s.ty(r), types::OBJECT | types::IS_REFERENCE);
    assert_eq!(s.child(r), s.child(obj));
    assert_eq!(s.key_id(r), None);
}

#[test]
fn object_members_in_order() {
    let mut s = SafeStore::new();
    let obj = create_object(&mut s).unwrap();
    add_null_to_object(&mut s, obj, b"a").unwrap();
    add_true_to_object(&mut s, obj, b"b").unwrap();
    add_false_to_object(&mut s, obj, b"c").unwrap();
    add_bool_to_object(&mut s, obj, b"d", false).unwrap();
    add_string_to_object(&mut s, obj, b"e", b"text").unwrap();
    add_raw_to_object(&mut s, obj, b"f", b"[1]").unwrap();
    add_object_to_object(&mut s, obj, b"g").unwrap();
    add_array_to_object(&mut s, obj, b"h").unwrap();
    assert_eq!(keys(&s, obj), vec![b"a".to_vec(), b"b".to_vec(), b"c".to_vec(), b"d".to_vec(),
        b"e".to_vec(), b"f".to_vec(), b"g".to_vec(), b"h".to_vec()]);
    let e = get_object_item(&s, Some(obj), Some(b"e"), true).unwrap();
    assert_eq!(s.valuestring_bytes(e), Some(&b"text"[..]));
    let f = get_object_item(&s, Some(obj), Some(b"f"), true).unwrap();
    assert!(is_raw(&s, Some(f)));
    assert_eq!(get_object_item(&s, Some(obj), Some(b"E"), true), None);
    assert_eq!(get_object_item(&s, Some(obj), Some(b"E"), false), Some(e));
    // the list's head points back at its last node
    let first = s.child(obj).unwrap();
    let last = *kids(&s, obj).last().unwrap();
    assert_eq!(s.prev(first), Some(last));
}

#[test]
fn add_item_to_itself_is_refused() {
    let mut s = SafeStore::new();
    let arr = create_array(&mut s).unwrap();
    assert!(!add_item_to_array(&mut s, arr, arr));
    assert!(!add_item_to_object(&mut s, arr, b"k", arr, false));
    assert_eq!(get_array_size(&s, Some(arr)), 0);
}

#[test]
fn array_items_by_index() {
    let mut s = SafeStore::new();
    let arr = create_int_array(&mut s, &[10, -20, 30]).unwrap();
    assert_eq!(get_array_size(&s, Some(arr)), 3);
    let second = get_array_item(&s, Some(arr), 1).unwrap();
    assert_eq!(s.valueint(second), -20);
    assert_eq!(f64::from_bits(s.valuedouble(second)), -20.0);
    assert_eq!(get_array_item(&s, Some(arr), 3), None);
    assert_eq!(get_array_item(&s, Some(arr), -1), None);
    assert_eq!(get_array_item(&s, None, 0), None);
}

#[test]
fn int_bits_match_the_double() {
    for n in [0, 1, -1, 2, 3, 7, 1000, -123456, i32::MAX, i32::MIN, 1 << 20] {
        assert_eq!(int_to_double_bits(n), (n as f64).to_bits());
    }
}

#[test]
fn double_and_string_arrays() {
    let mut s = SafeStore::new();
    let d = create_double_array(&mut s, &[(1.5f64.to_bits(), 1), ((-2.0f64).to_bits(), -2)]).unwrap();
    let ks = kids(&s, d);
    assert_eq!(ks.len(), 2);
    assert_eq!(f64::from_bits(s.valuedouble(ks[0])), 1.5);
    assert_eq!(s.valueint(ks[1]), -2);
    let words: [&[u8]; 3] = [b"x", b"", b"zz"];
    let a = create_string_array(&mut s, &words).unwrap();
    let ks = kids(&s, a);
    assert_eq!(ks.len(), 3);
    assert_eq!(s.valuestring_bytes(ks[0]), Some(&b"x"[..]));
    assert_eq!(s.valuestring_bytes(ks[1]), Some(&b""[..]));
    assert_eq!(s.valuestring_bytes(ks[2]), Some(&b"zz"[..]));
    assert_eq!(s.prev(ks[0]), Some(ks[2]));
    let empty = create_string_array(&mut s, &[]).unwrap();
    assert_eq!(s.child(empty), None);
}

#[test]
fn insert_then_detach_restores_order() {
    let mut s = SafeStore::new();
    let arr = create_int_array(&mut s, &[1, 2, 3]).unwrap();
    let before = kids(&s, arr);
    let x = create_null(&mut s).unwrap();
    assert!(insert_item_in_array(&mut s, arr, 1, x));
    let mid = kids(&s, arr);
    assert_eq!(mid, vec![before[0], x, before[1], before[2]]);
    assert_eq!(detach_item_via_pointer(&mut s, arr, x), Some(x));
    assert_eq!(kids(&s, arr), before);
    assert_eq!(s.next(x), None);
    assert_eq!(s.prev(x), None);
    // past the end appends; a negative index is refused
    let y = create_null(&mut s).unwrap();
    assert!(insert_item_in_array(&mut s, arr, 10, y));
    assert_eq!(*kids(&s, arr).last().unwrap(), y);
    assert!(!insert_item_in_array(&mut s, arr, -1, x));
}

#[test]
fn detach_from_object_by_name() {
    let mut s = SafeStore::new();
    let obj = create_object(&mut s).unwrap();
    add_true_to_object(&mut s, obj, b"a").unwrap();
    let b = add_false_to_object(&mut s, obj, b"b").unwrap();
    assert_eq!(detach_item_from_object(&mut s, obj, b"B", false), Some(b));
    assert_eq!(keys(&s, obj), vec![b"a".to_vec()]);
    assert_eq!(detach_item_from_object(&mut s, obj, b"zz", false), None);
}

#[test]
fn replace_keeps_position() {
    let mut s = SafeStore::new();
    let arr = create_int_array(&mut s, &[1, 2, 3]).unwrap();
    let old = kids(&s, arr);
    let r = create_string(&mut s, b"new").unwrap();
    assert!(replace_item_via_pointer(&mut s, arr, old[1], r));
    assert_eq!(kids(&s, arr), vec![old[0], r, old[2]]);
    assert_eq!(s.prev(r), Some(old[0]));
    let first = create_null(&mut s).unwrap();
    assert!(replace_item_via_pointer(&mut s, arr, old[0], first));
    assert_eq!(s.child(arr), Some(first));
    assert_eq!(s.prev(first), Some(old[2]));
}

#[test]
fn replace_in_object_by_name() {
    let mut s = SafeStore::new();
    let obj = create_object(&mut s).unwrap();
    add_true_to_object(&mut s, obj, b"a").unwrap();
    add_true_to_object(&mut s, obj, b"b").unwrap();
    let r = create_number(&mut s, 5.0f64.to_bits(), 5).unwrap();
    assert!(replace_item_in_object(&mut s, obj, b"b", r, true));
    assert_eq!(keys(&s, obj), vec![b"a".to_vec(), b"b".to_vec()]);
    assert_eq!(get_object_item(&s, Some(obj), Some(b"b"), true), Some(r));
    let r2 = create_null(&mut s).unwrap();
    assert!(!replace_item_in_object(&mut s, obj, b"missing", r2, true));
}

#[test]
fn set_valuestring_replaces_owned_strings_only() {
    let mut s = SafeStore::new();
    let st = create_string(&mut s, b"long value").unwrap();
    assert!(set_valuestring(&mut s, st, b"short"));
    assert_eq!(s.valuestring_bytes(st), Some(&b"short"[..]));
    assert!(set_valuestring(&mut s, st, b"a much longer value"));
    assert_eq!(s.valuestring_bytes(st), Some(&b"a much longer value"[..]));
    let r = create_string_reference(&mut s, b"ref").unwrap();
    assert!(!set_valuestring(&mut s, r, b"x"));
    let n = create_null(&mut s).unwrap();
    assert!(!set_valuestring(&mut s, n, b"x"));
}

#[test]
fn freed_slots_are_reused_lowest_first() {
    let mut s = SafeStore::new();
    let root = s.alloc_node().unwrap();
    s.set_ty(root, types::ARRAY);
    let child = s.alloc_node().unwrap();
    s.set_ty(child, types::NULL);
    s.set_child(root, Some(child));
    s.delete(Some(root));
    assert_eq!(s.alloc_node(), NodeId::from_raw(1));
    assert_eq!(s.alloc_node(), NodeId::from_raw(2));
}

#[test]
fn handles_round_trip_through_raw() {
    assert_eq!(NodeId::from_raw(0), None);
    let id = NodeId::from_raw(7).unwrap();
    assert_eq!(id.raw(), 7);
    assert_eq!(NodeId::from_raw(id.raw()), Some(id));
}

#[test]
fn replaced_item_slot_is_reused() {
    let mut s = SafeStore::new();
    let arr = create_int_array(&mut s, &[1, 2]).unwrap();
    let two = get_array_item(&s, Some(arr), 1).unwrap();
    let r = create_number(&mut s, 5.0f64.to_bits(), 5).unwrap();
    assert!(replace_item_via_pointer(&mut s, arr, two, r));
    assert_eq!(kids(&s, arr).len(), 2);
    assert_eq!(s.prev(s.child(arr).unwrap()), Some(r));
    assert_eq!(s.alloc_node(), Some(two));
}
