//! Create, mutate, look up: the DOM operations over a [`SafeStore`].
use vstd::prelude::*;
use crate::store::{NodeId, StrId, SafeStore, NodeData, StoreView};
use crate::types::{
    spec_type_kind, spec_is_reference, spec_string_is_const, INVALID, FALSE, TRUE, NULL, NUMBER, STRING, ARRAY,
    OBJECT, RAW, IS_REFERENCE, STRING_IS_CONST,
};

verus! {

/// `after` is `before` with the fresh node `n` holding `d`.
pub open spec fn fresh_node(before: StoreView, after: StoreView, n: NodeId, d: NodeData) -> bool {
    !before.live(n) && after == (StoreView { nodes: before.nodes.insert(n, d), ..before })
}

/// The outcome of creating a node with the fields `d`: `None` exactly when allocation
/// is made to fail, the store then unchanged.
pub open spec fn created(before: StoreView, after: StoreView, r: Option<NodeId>, d: NodeData) -> bool {
    match r {
        None => before.fail_allocs && after == before,
        Some(n) => !before.fail_allocs && fresh_node(before, after, n, d),
    }
}

/// A fresh node of the type `ty`, every other field zero or absent.
pub open spec fn typed(ty: i32) -> NodeData {
    NodeData { ty, ..NodeData::empty() }
}

fn create_typed(store: &mut SafeStore, ty: i32) -> (r: Option<NodeId>)
    ensures
        created(old(store)@, final(store)@, r, typed(ty)),
{
    let n = match store.alloc_node() {
        Some(n) => n,
        None => return None,
    };
    store.set_ty(n, ty);
    assert(store@.nodes =~= old(store)@.nodes.insert(n, typed(ty)));
    Some(n)
}

pub fn create_null(store: &mut SafeStore) -> (r: Option<NodeId>)
    ensures
        created(old(store)@, final(store)@, r, typed(NULL)),
{
    create_typed(store, NULL)
}

pub fn create_true(store: &mut SafeStore) -> (r: Option<NodeId>)
    ensures
        created(old(store)@, final(store)@, r, typed(TRUE)),
{
    create_typed(store, TRUE)
}

pub fn create_false(store: &mut SafeStore) -> (r: Option<NodeId>)
    ensures
        created(old(store)@, final(store)@, r, typed(FALSE)),
{
    create_typed(store, FALSE)
}

pub fn create_bool(store: &mut SafeStore, v: bool) -> (r: Option<NodeId>)
    ensures
        created(old(store)@, final(store)@, r, typed(if v { TRUE } else { FALSE })),
{
    if v {
        create_true(store)
    } else {
        create_false(store)
    }
}

/// A number node: the IEEE-754 bits of the double and the double saturated to `i32`.
pub fn create_number(store: &mut SafeStore, valuedouble: u64, valueint: i32) -> (r: Option<NodeId>)
    ensures
        created(old(store)@, final(store)@, r, NodeData { ty: NUMBER, valueint, valuedouble, ..NodeData::empty() }),
{
    let n = match store.alloc_node() {
        Some(n) => n,
        None => return None,
    };
    store.set_ty(n, NUMBER);
    set_number_helper(store, n, valuedouble, valueint);
    assert(store@.nodes =~= old(store)@.nodes.insert(n, NodeData { ty: NUMBER, valueint, valuedouble, ..NodeData::empty() }));
    Some(n)
}

/// The outcome of creating a node of type `ty` that owns a copy of `bytes`.
pub open spec fn created_str(before: StoreView, after: StoreView, r: Option<NodeId>, ty: i32, bytes: Seq<u8>) -> bool {
    match r {
        None => before.fail_allocs && after == before,
        Some(n) => !before.fail_allocs && !before.live(n) && exists|sid: StrId| {
            &&& !before.strings.contains_key(sid)
            &&& sid.0 < after.str_slots
            &&& after.nodes == before.nodes.insert(n, NodeData { ty, valuestring: Some(sid), ..NodeData::empty() })
            &&& after.strings == before.strings.insert(sid, bytes)
            &&& after.str_slots >= before.str_slots
            &&& after.fail_allocs == before.fail_allocs
        },
    }
}

fn create_with_string(store: &mut SafeStore, ty: i32, s: &[u8]) -> (r: Option<NodeId>)
    requires
        !spec_is_reference(ty),
    ensures
        created_str(old(store)@, final(store)@, r, ty, s@),
{
    let n = match store.alloc_node() {
        Some(n) => n,
        None => return None,
    };
    store.set_ty(n, ty);
    match store.alloc_str(s) {
        Some(sid) => {
            store.set_valuestring_id(n, Some(sid));
            assert(store@.nodes =~= old(store)@.nodes.insert(n, NodeData { ty, valuestring: Some(sid), ..NodeData::empty() }));
            Some(n)
        },
        None => {
            store.delete(Some(n));
            None
        },
    }
}

pub fn create_string(store: &mut SafeStore, s: &[u8]) -> (r: Option<NodeId>)
    ensures
        created_str(old(store)@, final(store)@, r, STRING, s@),
{
    assert(!spec_is_reference(16)) by (bit_vector);
    create_with_string(store, STRING, s)
}

pub fn create_raw(store: &mut SafeStore, s: &[u8]) -> (r: Option<NodeId>)
    ensures
        created_str(old(store)@, final(store)@, r, RAW, s@),
{
    assert(!spec_is_reference(128)) by (bit_vector);
    create_with_string(store, RAW, s)
}

pub fn create_array(store: &mut SafeStore) -> (r: Option<NodeId>)
    ensures
        created(old(store)@, final(store)@, r, typed(ARRAY)),
{
    create_typed(store, ARRAY)
}

pub fn create_object(store: &mut SafeStore) -> (r: Option<NodeId>)
    ensures
        created(old(store)@, final(store)@, r, typed(OBJECT)),
{
    create_typed(store, OBJECT)
}

/// A string node that refers to `s` rather than owning it.
pub fn create_string_reference(store: &mut SafeStore, s: &[u8]) -> (r: Option<NodeId>)
    ensures
        created_str(old(store)@, final(store)@, r, STRING | IS_REFERENCE, s@),
{
    let n = match store.alloc_node() {
        Some(n) => n,
        None => return None,
    };
    store.set_ty(n, STRING | IS_REFERENCE);
    let sid = match store.borrow_str(s) {
        Some(sid) => sid,
        None => return None,
    };
    store.set_valuestring_id(n, Some(sid));
    assert(store@.nodes =~= old(store)@.nodes.insert(n, NodeData { ty: STRING | IS_REFERENCE, valuestring: Some(sid), ..NodeData::empty() }));
    Some(n)
}

/// An object node whose children are those of another node.
pub fn create_object_reference(store: &mut SafeStore, child: Option<NodeId>) -> (r: Option<NodeId>)
    ensures
        created(old(store)@, final(store)@, r, NodeData { ty: OBJECT | IS_REFERENCE, child, ..NodeData::empty() }),
{
    let n = match store.alloc_node() {
        Some(n) => n,
        None => return None,
    };
    store.set_ty(n, OBJECT | IS_REFERENCE);
    store.set_child(n, child);
    assert(store@.nodes =~= old(store)@.nodes.insert(n, NodeData { ty: OBJECT | IS_REFERENCE, child, ..NodeData::empty() }));
    Some(n)
}

/// An array node whose children are those of another node.
pub fn create_array_reference(store: &mut SafeStore, child: Option<NodeId>) -> (r: Option<NodeId>)
    ensures
        created(old(store)@, final(store)@, r, NodeData { ty: ARRAY | IS_REFERENCE, child, ..NodeData::empty() }),
{
    let n = match store.alloc_node() {
        Some(n) => n,
        None => return None,
    };
    store.set_ty(n, ARRAY | IS_REFERENCE);
    store.set_child(n, child);
    assert(store@.nodes =~= old(store)@.nodes.insert(n, NodeData { ty: ARRAY | IS_REFERENCE, child, ..NodeData::empty() }));
    Some(n)
}

/// Set the number fields: the IEEE-754 bits and the saturated integer. Returns the bits.
pub fn set_number_helper(store: &mut SafeStore, object: NodeId, valuedouble: u64, valueint: i32) -> (r: u64)
    requires
        old(store)@.live(object),
    ensures
        r == valuedouble,
        final(store)@ == old(store)@.with_node(object, NodeData { valueint, valuedouble, ..old(store)@.nodes[object] }),
{
    store.set_valueint(object, valueint);
    store.set_valuedouble(object, valuedouble);
    assert(store@.nodes =~= old(store)@.nodes.insert(object, NodeData { valueint, valuedouble, ..old(store)@.nodes[object] }));
    valuedouble
}

} // verus!

verus! {

/// `item` linked after `prev`: `prev.next` is `item` and `item.prev` is `prev`.
pub open spec fn linked(m: StoreView, prev: NodeId, item: NodeId) -> StoreView {
    let m1 = m.with_node(prev, NodeData { next: Some(item), ..m.nodes[prev] });
    m1.with_node(item, NodeData { prev: Some(prev), ..m1.nodes[item] })
}

pub fn suffix_object(store: &mut SafeStore, prev: NodeId, item: NodeId)
    requires
        old(store)@.live(prev),
        old(store)@.live(item),
    ensures
        final(store)@ == linked(old(store)@, prev, item),
{
    store.set_next(prev, Some(item));
    store.set_prev(item, Some(prev));
}

/// What linking `item` at the end of the children of `array` does to the fields.
pub open spec fn appended(m: StoreView, array: NodeId, item: NodeId) -> StoreView {
    match m.nodes[array].child {
        None => {
            let m1 = m.with_node(array, NodeData { child: Some(item), ..m.nodes[array] });
            let m2 = m1.with_node(item, NodeData { prev: Some(item), ..m1.nodes[item] });
            m2.with_node(item, NodeData { next: None, ..m2.nodes[item] })
        },
        Some(c) => match m.nodes[c].prev {
            Some(tail) => {
                let m1 = linked(m, tail, item);
                m1.with_node(c, NodeData { prev: Some(item), ..m1.nodes[c] })
            },
            None => m,
        },
    }
}

/// The pointers that appending to `array` reads are live.
pub open spec fn append_ok(m: StoreView, array: NodeId, item: NodeId) -> bool {
    &&& m.live(array)
    &&& m.live(item)
    &&& m.nodes[array].child matches Some(c) ==> m.live(c) && (m.nodes[c].prev matches Some(t) ==> m.live(t))
}

/// Append `item` to the children of `array`; `false` when they are the same node.
pub fn add_item_to_array(store: &mut SafeStore, array: NodeId, item: NodeId) -> (r: bool)
    requires
        append_ok(old(store)@, array, item),
    ensures
        r == (array != item),
        final(store)@ == (if r { appended(old(store)@, array, item) } else { old(store)@ }),
        r ==> forall|s: Seq<NodeId>| old(store)@.is_list(old(store)@.nodes[array].child, s) && !s.contains(item)
            && old(store)@.nodes[item].next is None
            ==> #[trigger] final(store)@.is_list(final(store)@.nodes[array].child, s.push(item)),
{
    if array == item {
        return false;
    }
    let ghost m = store@;
    match store.child(array) {
        None => {
            store.set_child(array, Some(item));
            store.set_prev(item, Some(item));
            store.set_next(item, None);
        },
        Some(child) => {
            match store.prev(child) {
                Some(tail) => {
                    suffix_object(store, tail, item);
                    store.set_prev(child, Some(item));
                },
                None => {},
            }
        },
    }
    proof {
        assert forall|s: Seq<NodeId>| m.is_list(m.nodes[array].child, s) && !s.contains(item)
            && m.nodes[item].next is None implies #[trigger] store@.is_list(store@.nodes[array].child, s.push(item)) by {
            lemma_append_list(m, array, item, s);
        }
    }
    true
}

/// Appending to a list gives the list with the item at its end.
#[verifier::spinoff_prover]
#[verifier::rlimit(40)]
pub proof fn lemma_append_list(m: StoreView, array: NodeId, item: NodeId, s: Seq<NodeId>)
    requires
        append_ok(m, array, item),
        array != item,
        m.is_list(m.nodes[array].child, s),
        !s.contains(item),
        m.nodes[item].next is None,
    ensures
        appended(m, array, item).is_list(appended(m, array, item).nodes[array].child, s.push(item)),
{
    let a = appended(m, array, item);
    let s2 = s.push(item);
    if s.len() == 0 {
        assert(s2 =~= seq![item]);
    } else {
        let c = s[0];
        let tail = s.last();
        assert(s[s.len() - 1] == tail);
        assert(item != tail);
        assert(item != c);
        assert forall|i: int| 0 <= i < s2.len() implies a.live(#[trigger] s2[i]) by {
            if i < s.len() {
                assert(s2[i] == s[i]);
            }
        }
        assert forall|i: int| 0 <= i < s2.len() - 1 implies a.nodes[#[trigger] s2[i]].next == Some(s2[i + 1]) by {
            assert(s2[i] == s[i]);
            if i < s.len() - 1 {
                assert(s[i] != tail);
                assert(s[i] != item);
            }
        }
        assert forall|i: int| 0 < i < s2.len() implies a.nodes[#[trigger] s2[i]].prev == Some(s2[i - 1]) by {
            if i < s.len() {
                assert(s2[i] == s[i]);
                assert(s[i] != c) by {
                    assert(s.no_duplicates());
                    assert(s[0] == c);
                }
                assert(s[i] != item);
            }
        }
        assert(s2.no_duplicates()) by {
            assert forall|i: int, j: int| 0 <= i < j < s2.len() implies s2[i] != s2[j] by {
                if j == s.len() {
                    assert(s2[i] == s[i]);
                }
            }
        }
        assert(s2[0] == c);
    }
}

} // verus!

verus! {

/// The children of `p` can be walked: `p` is live and its chain is finite.
pub open spec fn walkable(m: StoreView, p: NodeId) -> bool {
    m.live(p) && m.has_chain(m.nodes[p].child)
}

/// The number of children, as an `int`.
pub fn get_array_size(store: &SafeStore, array: Option<NodeId>) -> (r: i32)
    requires
        array matches Some(a) ==> walkable(store@, a),
    ensures
        r == (match array {
            Some(a) => store@.children(a).len() as i32,
            None => 0,
        }),
{
    let a = match array {
        Some(a) => a,
        None => return 0,
    };
    let ghost s = store@.children(a);
    proof { crate::tree::lemma_chain_is(store@, store@.nodes[a].child, s); }
    store.distinct_live_fit(Ghost(s));
    let mut size: usize = 0;
    let mut child = store.child(a);
    while child.is_some()
        invariant
            store@.is_chain(store@.nodes[a].child, s),
            s.len() <= usize::MAX,
            size <= s.len(),
            child == (if size < s.len() { Some(s[size as int]) } else { None::<NodeId> }),
        decreases s.len() - size,
    {
        let c = child.unwrap();
        size += 1;
        child = store.next(c);
    }
    size as i32
}

/// The child at `index`, or `None` when the index is negative or past the end.
pub fn get_array_item(store: &SafeStore, array: Option<NodeId>, index: i32) -> (r: Option<NodeId>)
    requires
        array matches Some(a) ==> walkable(store@, a),
    ensures
        r == (match array {
            Some(a) => if 0 <= index < store@.children(a).len() { Some(store@.children(a)[index as int]) } else { None },
            None => None,
        }),
{
    if index < 0 {
        return None;
    }
    let a = match array {
        Some(a) => a,
        None => return None,
    };
    let ghost s = store@.children(a);
    proof { crate::tree::lemma_chain_is(store@, store@.nodes[a].child, s); }
    let mut child = store.child(a);
    let mut i = index as usize;
    let ghost mut k: int = 0;
    while child.is_some() && i > 0
        invariant
            store@.is_chain(store@.nodes[a].child, s),
            0 <= k <= s.len(),
            k + i == index,
            child == (if k < s.len() { Some(s[k]) } else { None::<NodeId> }),
        decreases i,
    {
        child = store.next(child.unwrap());
        i -= 1;
        proof { k = k + 1; }
    }
    child
}

/// Whether the walk of `get_object_item` stops at `id`: the key matches `name` (exactly, or
/// ignoring case); in the exact walk a node without a key stops it too.
pub open spec fn key_stop(m: StoreView, id: NodeId, name: Seq<u8>, case_sensitive: bool) -> bool {
    if case_sensitive {
        match m.key_of(id) {
            Some(k) => k == name,
            None => true,
        }
    } else {
        crate::types::spec_ci_compare(Some(name), m.key_of(id)) == 0
    }
}

/// The index where the walk from `i` stops, or the length.
pub open spec fn first_stop(m: StoreView, s: Seq<NodeId>, name: Seq<u8>, case_sensitive: bool, i: int) -> int
    decreases s.len() - i,
{
    if i < 0 || i >= s.len() {
        s.len() as int
    } else if key_stop(m, s[i], name, case_sensitive) {
        i
    } else {
        first_stop(m, s, name, case_sensitive, i + 1)
    }
}

pub proof fn lemma_first_stop(m: StoreView, s: Seq<NodeId>, name: Seq<u8>, cs: bool, i: int)
    requires
        0 <= i <= s.len(),
    ensures
        i <= first_stop(m, s, name, cs, i) <= s.len(),
        first_stop(m, s, name, cs, i) < s.len() ==> key_stop(m, s[first_stop(m, s, name, cs, i)], name, cs),
        forall|j: int| i <= j < first_stop(m, s, name, cs, i) ==> !key_stop(m, #[trigger] s[j], name, cs),
    decreases s.len() - i,
{
    if i < s.len() && !key_stop(m, s[i], name, cs) {
        lemma_first_stop(m, s, name, cs, i + 1);
    }
}

/// What `get_object_item` finds among the children `s`: the node where the walk stops, when
/// it has a key.
pub open spec fn object_lookup(m: StoreView, s: Seq<NodeId>, name: Seq<u8>, case_sensitive: bool) -> Option<NodeId> {
    let i = first_stop(m, s, name, case_sensitive, 0);
    if i < s.len() && m.key_of(s[i]) is Some { Some(s[i]) } else { None }
}

/// The children of `p` can be walked and their keys read.
pub open spec fn keyed_walkable(m: StoreView, p: NodeId) -> bool {
    &&& walkable(m, p)
    &&& forall|i: int| 0 <= i < m.children(p).len() ==> m.str_ok(m.nodes[#[trigger] m.children(p)[i]].key)
}

/// The child of `object` whose key is `name`: the first whose key equals it (case-sensitive
/// walk, which gives up at a child without a key) or matches it ignoring case.
pub fn get_object_item(store: &SafeStore, object: Option<NodeId>, name: Option<&[u8]>, case_sensitive: bool) -> (r: Option<NodeId>)
    requires
        object matches Some(o) ==> keyed_walkable(store@, o),
    ensures
        r == (match (object, name) {
            (Some(o), Some(nm)) => object_lookup(store@, store@.children(o), nm@, case_sensitive),
            _ => None,
        }),
{
    let o = match object {
        Some(o) => o,
        None => return None,
    };
    let nm = match name {
        Some(nm) => nm,
        None => return None,
    };
    let ghost m = store@;
    let ghost s = store@.children(o);
    proof {
        crate::tree::lemma_chain_is(m, m.nodes[o].child, s);
        lemma_first_stop(m, s, nm@, case_sensitive, 0);
    }
    let mut cur = store.child(o);
    let ghost mut k: int = 0;
    while cur.is_some()
        invariant
            m == store@,
            m.is_chain(m.nodes[o].child, s),
            s == m.children(o),
            forall|i: int| 0 <= i < s.len() ==> m.str_ok(m.nodes[#[trigger] s[i]].key),
            0 <= k <= s.len(),
            k <= first_stop(m, s, nm@, case_sensitive, 0),
            first_stop(m, s, nm@, case_sensitive, 0) == first_stop(m, s, nm@, case_sensitive, k),
            cur == (if k < s.len() { Some(s[k]) } else { None::<NodeId> }),
        ensures
            k == first_stop(m, s, nm@, case_sensitive, 0),
            cur == (if k < s.len() { Some(s[k]) } else { None::<NodeId> }),
        decreases s.len() - k,
    {
        let el = cur.unwrap();
        let key = store.key_bytes(el);
        let stop = if case_sensitive {
            match key {
                Some(kb) => crate::types::bytes_equal(kb, nm),
                None => true,
            }
        } else {
            crate::types::case_insensitive_strcmp(Some(nm), key) == 0
        };
        if stop {
            break;
        }
        proof {
            assert(!key_stop(m, s[k], nm@, case_sensitive));
            lemma_first_stop(m, s, nm@, case_sensitive, k + 1);
        }
        cur = store.next(el);
        proof { k = k + 1; }
    }
    match cur {
        Some(el) => {
            if store.key_bytes(el).is_some() {
                Some(el)
            } else {
                None
            }
        },
        None => None,
    }
}

} // verus!

verus! {

/// What unlinking `item` from the children of `parent` does to the fields.
pub open spec fn unlinked(m: StoreView, parent: NodeId, item: NodeId) -> StoreView {
    let child = m.nodes[parent].child;
    let m1 = if Some(item) != child {
        match m.nodes[item].prev {
            Some(p) => m.with_node(p, NodeData { next: m.nodes[item].next, ..m.nodes[p] }),
            None => m,
        }
    } else {
        m
    };
    let m2 = match m1.nodes[item].next {
        Some(nx) => m1.with_node(nx, NodeData { prev: m1.nodes[item].prev, ..m1.nodes[nx] }),
        None => m1,
    };
    let m3 = if Some(item) == child {
        m2.with_node(parent, NodeData { child: m2.nodes[item].next, ..m2.nodes[parent] })
    } else if m2.nodes[item].next is None {
        match m2.nodes[parent].child {
            Some(c) => m2.with_node(c, NodeData { prev: m2.nodes[item].prev, ..m2.nodes[c] }),
            None => m2,
        }
    } else {
        m2
    };
    let m4 = m3.with_node(item, NodeData { prev: None, ..m3.nodes[item] });
    m4.with_node(item, NodeData { next: None, ..m4.nodes[item] })
}

/// The pointers that unlinking reads are live.
pub open spec fn unlink_ok(m: StoreView, parent: NodeId, item: NodeId) -> bool {
    &&& m.live(parent)
    &&& m.live(item)
    &&& m.nodes[item].prev matches Some(p) ==> m.live(p)
    &&& m.nodes[item].next matches Some(n) ==> m.live(n)
    &&& m.nodes[parent].child matches Some(c) ==> m.live(c)
}

/// Unlink `item` from the children of `parent`.
/// `None` (and nothing changed) when `item` is not the first child and has no `prev`.
pub fn detach_item_via_pointer(store: &mut SafeStore, parent: NodeId, item: NodeId) -> (r: Option<NodeId>)
    requires
        unlink_ok(old(store)@, parent, item),
    ensures
        (Some(item) != old(store)@.nodes[parent].child && old(store)@.nodes[item].prev is None) ==> r is None
            && final(store)@ == old(store)@,
        !(Some(item) != old(store)@.nodes[parent].child && old(store)@.nodes[item].prev is None) ==> r == Some(item)
            && final(store)@ == unlinked(old(store)@, parent, item),
{
    let child = store.child(parent);
    if !(child.is_some() && child.unwrap() == item) && store.prev(item).is_none() {
        return None;
    }
    let is_first = child.is_some() && child.unwrap() == item;
    if !is_first {
        match store.prev(item) {
            Some(p) => {
                let nx = store.next(item);
                store.set_next(p, nx);
            },
            None => {},
        }
    }
    match store.next(item) {
        Some(nx) => {
            let pv = store.prev(item);
            store.set_prev(nx, pv);
        },
        None => {},
    }
    if is_first {
        let nx = store.next(item);
        store.set_child(parent, nx);
    } else if store.next(item).is_none() {
        match store.child(parent) {
            Some(c) => {
                let pv = store.prev(item);
                store.set_prev(c, pv);
            },
            None => {},
        }
    }
    store.set_prev(item, None);
    store.set_next(item, None);
    Some(item)
}

/// Unlinking the `i`-th node of a list leaves the list without it, and the node detached.
#[verifier::spinoff_prover]
#[verifier::rlimit(40)]
pub proof fn lemma_unlink_list(m: StoreView, parent: NodeId, s: Seq<NodeId>, i: int)
    requires
        m.live(parent),
        m.is_list(m.nodes[parent].child, s),
        0 <= i < s.len(),
    ensures
        unlink_ok(m, parent, s[i]),
        !(Some(s[i]) != m.nodes[parent].child && m.nodes[s[i]].prev is None),
        unlinked(m, parent, s[i]).is_list(unlinked(m, parent, s[i]).nodes[parent].child, s.remove(i)),
        unlinked(m, parent, s[i]).nodes[s[i]].next is None,
        unlinked(m, parent, s[i]).nodes[s[i]].prev is None,
        unlinked(m, parent, s[i]).nodes.dom() == m.nodes.dom(),
        unlinked(m, parent, s[i]).strings == m.strings,
{
    let item = s[i];
    let n = s.len();
    let a = unlinked(m, parent, item);
    let s2 = s.remove(i);
    assert(s[n - 1] == s.last());
    assert(m.live(s[0]));
    assert(m.live(s.last()));
    if i > 0 {
        assert(m.nodes[item].prev == Some(s[i - 1]));
        assert(item != s[0]);
    } else {
        assert(m.nodes[item].prev == Some(s.last()));
    }
    if i + 1 < n {
        assert(m.nodes[item].next == Some(s[i + 1]));
        assert(m.live(s[i + 1]));
    }
    assert(a.nodes.dom() =~= m.nodes.dom());
    // every node of the remaining list but its neighbours keeps its links
    assert forall|j: int| 0 <= j < s2.len() implies a.live(#[trigger] s2[j]) by {
        if j < i { assert(s2[j] == s[j]); } else { assert(s2[j] == s[j + 1]); }
    }
    assert forall|j: int| 0 <= j < s2.len() - 1 implies a.nodes[#[trigger] s2[j]].next == Some(s2[j + 1]) by {
        if j < i {
            assert(s2[j] == s[j]);
            assert(s[j] != item);
            if j + 1 < i { assert(s2[j + 1] == s[j + 1]); } else { assert(s2[j + 1] == s[j + 2]); }
        } else {
            assert(s2[j] == s[j + 1]);
            assert(s2[j + 1] == s[j + 2]);
            assert(s[j + 1] != item);
        }
    }
    assert forall|j: int| 0 < j < s2.len() implies a.nodes[#[trigger] s2[j]].prev == Some(s2[j - 1]) by {
        if j < i {
            assert(s2[j] == s[j]);
            assert(s2[j - 1] == s[j - 1]);
            assert(s[j] != item);
            assert(s[j] != s[0]);
        } else {
            assert(s2[j] == s[j + 1]);
            assert(s[j + 1] != s[0]);
            if j == i { assert(s2[j - 1] == s[j - 1]); } else { assert(s2[j - 1] == s[j]); }
        }
    }
    if s2.len() > 0 {
        if i == 0 {
            assert(s2[0] == s[1]);
            assert(s2.last() == s.last());
        } else if i == n - 1 {
            assert(s2[0] == s[0]);
            assert(s2.last() == s[n - 2]);
        } else {
            assert(s2[0] == s[0]);
            assert(s2.last() == s.last());
        }
        assert(a.nodes[s2.last()].next is None);
    }
    assert(s2.no_duplicates()) by {
        assert forall|x: int, y: int| 0 <= x < y < s2.len() implies s2[x] != s2[y] by {
            let xx = if x < i { x } else { x + 1 };
            let yy = if y < i { y } else { y + 1 };
            assert(s2[x] == s[xx]);
            assert(s2[y] == s[yy]);
        }
    }
}

/// The pointers of the children of `p` form a list in the store's shape.
pub open spec fn listed(m: StoreView, p: NodeId) -> bool {
    m.live(p) && m.is_list(m.nodes[p].child, m.children(p)) && m.has_chain(m.nodes[p].child)
}

pub fn detach_item_from_array(store: &mut SafeStore, array: NodeId, which: i32) -> (r: Option<NodeId>)
    requires
        listed(old(store)@, array),
    ensures
        r == (if 0 <= which < old(store)@.children(array).len() { Some(old(store)@.children(array)[which as int]) } else { None }),
        r is None ==> final(store)@ == old(store)@,
        r is Some ==> final(store)@ == unlinked(old(store)@, array, r.unwrap()),
{
    let item = match get_array_item(store, Some(array), which) {
        Some(i) => i,
        None => return None,
    };
    proof { lemma_unlink_list(store@, array, store@.children(array), which as int); }
    detach_item_via_pointer(store, array, item)
}

pub fn detach_item_from_object(store: &mut SafeStore, object: NodeId, name: &[u8], case_sensitive: bool) -> (r: Option<NodeId>)
    requires
        listed(old(store)@, object),
        keyed_walkable(old(store)@, object),
    ensures
        r == object_lookup(old(store)@, old(store)@.children(object), name@, case_sensitive),
        r is None ==> final(store)@ == old(store)@,
        r is Some ==> final(store)@ == unlinked(old(store)@, object, r.unwrap()),
{
    let item = match get_object_item(store, Some(object), Some(name), case_sensitive) {
        Some(i) => i,
        None => return None,
    };
    proof {
        let s = store@.children(object);
        lemma_first_stop(store@, s, name@, case_sensitive, 0);
        lemma_unlink_list(store@, object, s, first_stop(store@, s, name@, case_sensitive, 0));
    }
    detach_item_via_pointer(store, object, item)
}

} // verus!

verus! {

/// What linking `newitem` in front of `after` does to the fields.
pub open spec fn inserted_before(m: StoreView, array: NodeId, after: NodeId, newitem: NodeId) -> StoreView {
    let m1 = m.with_node(newitem, NodeData { next: Some(after), ..m.nodes[newitem] });
    let m2 = m1.with_node(newitem, NodeData { prev: m1.nodes[after].prev, ..m1.nodes[newitem] });
    let m3 = m2.with_node(after, NodeData { prev: Some(newitem), ..m2.nodes[after] });
    if Some(after) == m3.nodes[array].child {
        m3.with_node(array, NodeData { child: Some(newitem), ..m3.nodes[array] })
    } else {
        match m3.nodes[newitem].prev {
            Some(p) => m3.with_node(p, NodeData { next: Some(newitem), ..m3.nodes[p] }),
            None => m3,
        }
    }
}

/// Put `newitem` at index `which`, or at the end when
/// `which` is past it. `false` for a negative index, or when the node at the index is not
/// the first child and has no `prev`.
pub fn insert_item_in_array(store: &mut SafeStore, array: NodeId, which: i32, newitem: NodeId) -> (r: bool)
    requires
        listed(old(store)@, array),
        old(store)@.live(newitem),
    ensures
        which < 0 ==> !r && final(store)@ == old(store)@,
        0 <= which < old(store)@.children(array).len() ==> r
            && final(store)@ == inserted_before(old(store)@, array, old(store)@.children(array)[which as int], newitem),
        which >= old(store)@.children(array).len() ==> r == (array != newitem)
            && final(store)@ == (if r { appended(old(store)@, array, newitem) } else { old(store)@ }),
        0 <= which < old(store)@.children(array).len() && !old(store)@.children(array).contains(newitem) && newitem != array
            ==> final(store)@.is_list(final(store)@.nodes[array].child, old(store)@.children(array).insert(which as int, newitem)),
{
    if which < 0 {
        return false;
    }
    let ghost m = store@;
    let ghost s = m.children(array);
    let after = match get_array_item(store, Some(array), which) {
        Some(a) => a,
        None => {
            proof {
                let c = m.nodes[array].child;
                if s.len() > 0 {
                    assert(m.live(s[0]));
                    assert(s[s.len() - 1] == s.last());
                    assert(m.live(s.last()));
                }
            }
            return add_item_to_array(store, array, newitem);
        },
    };
    proof {
        assert(m.live(after));
        if which > 0 {
            assert(m.nodes[after].prev == Some(s[which - 1]));
        }
    }
    let child = store.child(array);
    if !(child.is_some() && child.unwrap() == after) && store.prev(after).is_none() {
        return false;
    }
    store.set_next(newitem, Some(after));
    let pv = store.prev(after);
    store.set_prev(newitem, pv);
    store.set_prev(after, Some(newitem));
    let child2 = store.child(array);
    if child2.is_some() && child2.unwrap() == after {
        store.set_child(array, Some(newitem));
    } else {
        match store.prev(newitem) {
            Some(p) => {
                store.set_next(p, Some(newitem));
            },
            None => {},
        }
    }
    proof {
        if !s.contains(newitem) && newitem != array {
            lemma_insert_list(m, array, s, which as int, newitem);
        }
    }
    true
}

/// Inserting in front of the `i`-th node of a list gives the list with the new node there.
#[verifier::spinoff_prover]
#[verifier::rlimit(40)]
pub proof fn lemma_insert_list(m: StoreView, array: NodeId, s: Seq<NodeId>, i: int, newitem: NodeId)
    requires
        m.live(array),
        m.live(newitem),
        m.is_list(m.nodes[array].child, s),
        0 <= i < s.len(),
        !s.contains(newitem),
        newitem != array,
    ensures
        inserted_before(m, array, s[i], newitem).is_list(inserted_before(m, array, s[i], newitem).nodes[array].child, s.insert(i, newitem)),
{
    let after = s[i];
    let a = inserted_before(m, array, after, newitem);
    let s2 = s.insert(i, newitem);
    let n = s.len();
    assert(s[n - 1] == s.last());
    assert(after != newitem);
    if i > 0 {
        assert(m.nodes[after].prev == Some(s[i - 1]));
        assert(after != s[0]);
    } else {
        assert(m.nodes[after].prev == Some(s.last()));
    }
    assert forall|j: int| 0 <= j < s2.len() implies a.live(#[trigger] s2[j]) by {
        if j < i { assert(s2[j] == s[j]); } else if j > i { assert(s2[j] == s[j - 1]); }
    }
    assert forall|j: int| 0 <= j < s2.len() - 1 implies a.nodes[#[trigger] s2[j]].next == Some(s2[j + 1]) by {
        if j < i {
            assert(s2[j] == s[j]);
            assert(s[j] != newitem);
            if j + 1 < i { assert(s2[j + 1] == s[j + 1]); }
        } else if j > i {
            assert(s2[j] == s[j - 1]);
            assert(s2[j + 1] == s[j]);
            assert(s[j - 1] != newitem);
            assert(s[j - 1] != after || j - 1 == i);
        } else {
            assert(s2[j + 1] == after);
        }
    }
    assert forall|j: int| 0 < j < s2.len() implies a.nodes[#[trigger] s2[j]].prev == Some(s2[j - 1]) by {
        if j < i {
            assert(s2[j] == s[j]);
            assert(s2[j - 1] == s[j - 1]);
            assert(s[j] != newitem);
            assert(s[j] != after);
        } else if j > i + 1 {
            assert(s2[j] == s[j - 1]);
            assert(s2[j - 1] == s[j - 2]);
            assert(s[j - 1] != newitem);
            assert(s[j - 1] != after);
        } else if j == i + 1 {
            assert(s2[j] == after);
            assert(s2[j - 1] == newitem);
        } else {
            assert(s2[j - 1] == s[i - 1]);
        }
    }
    assert(s2.last() == s.last());
    if i == 0 {
        assert(s2[0] == newitem);
    } else {
        assert(s2[0] == s[0]);
        assert(s[0] != after);
    }
    assert(s2.no_duplicates()) by {
        assert forall|x: int, y: int| 0 <= x < y < s2.len() implies s2[x] != s2[y] by {
            if x != i && y != i {
                let xx = if x < i { x } else { x - 1 };
                let yy = if y < i { y } else { y - 1 };
                assert(s2[x] == s[xx]);
                assert(s2[y] == s[yy]);
            } else if x == i {
                let yy = y - 1;
                assert(s2[y] == s[yy]);
            } else {
                assert(s2[x] == s[x]);
            }
        }
    }
}

} // verus!

verus! {

/// The store after `item` is given the key string `sid` (holding `key`), its old key
/// freed unless constant, and its type's constant-key flag set as `constant_key` says.
pub open spec fn rekeyed(m: StoreView, item: NodeId, sid: StrId, key: Seq<u8>, constant_key: bool) -> StoreView {
    let ty = m.nodes[item].ty;
    let m1 = StoreView { strings: m.strings.insert(sid, key), ..m };
    let m2 = if !spec_string_is_const(ty) && m.nodes[item].key is Some {
        StoreView {
            strings: m1.strings.remove(m.nodes[item].key.unwrap()),
            nodes: m1.nodes.insert(item, NodeData { key: None, ..m1.nodes[item] }),
            ..m1
        }
    } else {
        m1
    };
    let new_ty = if constant_key { ty | STRING_IS_CONST } else { ty & !STRING_IS_CONST };
    m2.with_node(item, NodeData { key: Some(sid), ty: new_ty, ..m2.nodes[item] })
}

/// Give `item` the key `key` and append it to `object`.
/// `false` when they are the same node or the key cannot be allocated (nothing changed).
pub fn add_item_to_object(store: &mut SafeStore, object: NodeId, key: &[u8], item: NodeId, constant_key: bool) -> (r: bool)
    requires
        append_ok(old(store)@, object, item),
    ensures
        r == (object != item && !old(store)@.fail_allocs),
        !r ==> final(store)@ == old(store)@,
        r ==> exists|sid: StrId| #![trigger rekeyed(old(store)@, item, sid, key@, constant_key)] {
            &&& !old(store)@.strings.contains_key(sid)
            &&& final(store)@.str_slots >= old(store)@.str_slots
            &&& sid.0 < final(store)@.str_slots
            &&& final(store)@ == appended(
                StoreView { str_slots: final(store)@.str_slots, ..rekeyed(old(store)@, item, sid, key@, constant_key) },
                object, item)
        },
{
    if object == item {
        return false;
    }
    let ghost m = store@;
    let sid = if constant_key {
        match store.borrow_str(key) {
            Some(s) => s,
            None => return false,
        }
    } else {
        match store.alloc_str(key) {
            Some(s) => s,
            None => return false,
        }
    };
    let ty0 = store.ty(item);
    let new_ty = if constant_key { ty0 | STRING_IS_CONST } else { ty0 & !STRING_IS_CONST };
    if !crate::types::string_is_const(store.ty(item)) {
        match store.key_id(item) {
            Some(old_key) => {
                store.set_key_id(item, None);
                store.free_str(old_key);
            },
            None => {},
        }
    }
    store.set_key_id(item, Some(sid));
    store.set_ty(item, new_ty);
    let ghost mid = store@;
    proof {
        let want = StoreView { str_slots: mid.str_slots, ..rekeyed(m, item, sid, key@, constant_key) };
        assert(mid.nodes =~= want.nodes);
        assert(mid.strings =~= want.strings);
        assert(mid == want);
    }
    add_item_to_array(store, object, item)
}

/// A detached, keyless node with the fields of `item`,
/// flagged as a reference.
pub fn create_reference(store: &mut SafeStore, item: NodeId) -> (r: Option<NodeId>)
    requires
        old(store)@.live(item),
    ensures
        created(old(store)@, final(store)@, r, NodeData {
            key: None,
            ty: old(store)@.nodes[item].ty | IS_REFERENCE,
            next: None,
            prev: None,
            ..old(store)@.nodes[item]
        }),
{
    let n = match store.alloc_node() {
        Some(n) => n,
        None => return None,
    };
    store.copy_fields(n, item);
    store.set_key_id(n, None);
    let ty = store.ty(n);
    store.set_ty(n, ty | IS_REFERENCE);
    store.set_next(n, None);
    store.set_prev(n, None);
    proof {
        let d = old(store)@.nodes[item];
        assert(store@.nodes =~= old(store)@.nodes.insert(n, NodeData { key: None, ty: d.ty | IS_REFERENCE, next: None, prev: None, ..d }));
    }
    Some(n)
}

/// The kind of an optional node is `kind`; an absent node is of no kind.
pub open spec fn kind_is(m: StoreView, item: Option<NodeId>, kind: i32) -> bool {
    match item {
        Some(i) => spec_type_kind(m.nodes[i].ty) == kind,
        None => false,
    }
}

fn kind_check(store: &SafeStore, item: Option<NodeId>, kind: i32) -> (r: bool)
    requires
        item matches Some(i) ==> store@.live(i),
    ensures
        r == kind_is(store@, item, kind),
{
    match item {
        Some(i) => crate::types::type_kind(store.ty(i)) == kind,
        None => false,
    }
}

pub fn is_invalid(store: &SafeStore, item: Option<NodeId>) -> (r: bool)
    requires item matches Some(i) ==> store@.live(i),
    ensures r == kind_is(store@, item, INVALID),
{
    kind_check(store, item, INVALID)
}

pub fn is_false(store: &SafeStore, item: Option<NodeId>) -> (r: bool)
    requires item matches Some(i) ==> store@.live(i),
    ensures r == kind_is(store@, item, FALSE),
{
    kind_check(store, item, FALSE)
}

pub fn is_true(store: &SafeStore, item: Option<NodeId>) -> (r: bool)
    requires item matches Some(i) ==> store@.live(i),
    ensures r == kind_is(store@, item, TRUE),
{
    kind_check(store, item, TRUE)
}

/// True or false: either flag bit of the type word is set.
pub fn is_bool(store: &SafeStore, item: Option<NodeId>) -> (r: bool)
    requires item matches Some(i) ==> store@.live(i),
    ensures
        r == (match item {
            Some(i) => store@.nodes[i].ty & (TRUE | FALSE) != 0,
            None => false,
        }),
{
    match item {
        Some(i) => store.ty(i) & (TRUE | FALSE) != 0,
        None => false,
    }
}

pub fn is_null(store: &SafeStore, item: Option<NodeId>) -> (r: bool)
    requires item matches Some(i) ==> store@.live(i),
    ensures r == kind_is(store@, item, NULL),
{
    kind_check(store, item, NULL)
}

pub fn is_number(store: &SafeStore, item: Option<NodeId>) -> (r: bool)
    requires item matches Some(i) ==> store@.live(i),
    ensures r == kind_is(store@, item, NUMBER),
{
    kind_check(store, item, NUMBER)
}

pub fn is_string(store: &SafeStore, item: Option<NodeId>) -> (r: bool)
    requires item matches Some(i) ==> store@.live(i),
    ensures r == kind_is(store@, item, STRING),
{
    kind_check(store, item, STRING)
}

pub fn is_array(store: &SafeStore, item: Option<NodeId>) -> (r: bool)
    requires item matches Some(i) ==> store@.live(i),
    ensures r == kind_is(store@, item, ARRAY),
{
    kind_check(store, item, ARRAY)
}

pub fn is_object(store: &SafeStore, item: Option<NodeId>) -> (r: bool)
    requires item matches Some(i) ==> store@.live(i),
    ensures r == kind_is(store@, item, OBJECT),
{
    kind_check(store, item, OBJECT)
}

pub fn is_raw(store: &SafeStore, item: Option<NodeId>) -> (r: bool)
    requires item matches Some(i) ==> store@.live(i),
    ensures r == kind_is(store@, item, RAW),
{
    kind_check(store, item, RAW)
}

} // verus!

verus! {

/// `after` is `before` with the value of `object` replaced by the fresh string `sid` holding `b`.
pub open spec fn revalued(before: StoreView, after: StoreView, object: NodeId, sid: StrId, b: Seq<u8>) -> bool {
    let old_id = before.nodes[object].valuestring.unwrap();
    &&& !before.strings.remove(old_id).contains_key(sid)
    &&& sid.0 < after.str_slots
    &&& after.str_slots >= before.str_slots
    &&& after.fail_allocs == before.fail_allocs
    &&& after.strings == before.strings.remove(old_id).insert(sid, b)
    &&& after.nodes == before.nodes.insert(object, NodeData { valuestring: Some(sid), ..before.nodes[object] })
}

/// Whether `set_valuestring` accepts `object`: an owned string with a live value.
pub open spec fn valuestring_settable(m: StoreView, object: NodeId) -> bool {
    let d = m.nodes[object];
    &&& spec_type_kind(d.ty) == STRING
    &&& !spec_is_reference(d.ty)
    &&& d.valuestring is Some
    &&& m.strings.contains_key(d.valuestring.unwrap())
}

/// Replace the value of an owned string node with a copy of
/// `valuestring`. When allocation fails after the old value was freed (the new value is no
/// longer than the old one), the node is left pointing at the freed string.
pub fn set_valuestring(store: &mut SafeStore, object: NodeId, valuestring: &[u8]) -> (r: bool)
    requires
        old(store)@.live(object),
        old(store)@.str_ok(old(store)@.nodes[object].valuestring),
    ensures
        r == (valuestring_settable(old(store)@, object) && !old(store)@.fail_allocs),
        !valuestring_settable(old(store)@, object) ==> final(store)@ == old(store)@,
        valuestring_settable(old(store)@, object) && old(store)@.fail_allocs ==> {
            let old_id = old(store)@.nodes[object].valuestring.unwrap();
            if valuestring@.len() <= old(store)@.strings[old_id].len() {
                final(store)@ == (StoreView { strings: old(store)@.strings.remove(old_id), ..old(store)@ })
            } else {
                final(store)@ == old(store)@
            }
        },
        r ==> exists|sid: StrId| #[trigger] revalued(old(store)@, final(store)@, object, sid, valuestring@),
{
    let ty = store.ty(object);
    if crate::types::type_kind(ty) != STRING || crate::types::is_reference(ty) {
        return false;
    }
    let old_id = match store.valuestring_id(object) {
        Some(s) => s,
        None => return false,
    };
    let old_len = match store.valuestring_bytes(object) {
        Some(b) => b.len(),
        None => return false,
    };
    if valuestring.len() <= old_len {
        store.free_str(old_id);
        let new_id = match store.alloc_str(valuestring) {
            Some(s) => s,
            None => return false,
        };
        store.set_valuestring_id(object, Some(new_id));
        proof {
            assert(store@.strings =~= old(store)@.strings.remove(old_id).insert(new_id, valuestring@));
            assert(store@.nodes =~= old(store)@.nodes.insert(object, NodeData { valuestring: Some(new_id), ..old(store)@.nodes[object] }));
            assert(revalued(old(store)@, store@, object, new_id, valuestring@));
        }
        return true;
    }
    let new_id = match store.alloc_str(valuestring) {
        Some(s) => s,
        None => return false,
    };
    store.set_valuestring_id(object, Some(new_id));
    store.free_str(old_id);
    proof {
        assert(store@.strings =~= old(store)@.strings.remove(old_id).insert(new_id, valuestring@));
        assert(store@.nodes =~= old(store)@.nodes.insert(object, NodeData { valuestring: Some(new_id), ..old(store)@.nodes[object] }));
        assert(revalued(old(store)@, store@, object, new_id, valuestring@));
    }
    true
}

} // verus!
