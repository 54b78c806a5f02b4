//! Shorthands that create a node and add it to an object under a name.
use vstd::prelude::*;
use crate::store::{NodeId, StrId, SafeStore, NodeData, StoreView};
use crate::types::{NULL, TRUE, FALSE, NUMBER, STRING, RAW, ARRAY, OBJECT};
use crate::dom::{
    created, created_str, typed, appended, append_ok, rekeyed, add_item_to_object, create_null, create_true,
    create_false, create_bool, create_number, create_string, create_raw, create_object, create_array,
};

verus! {

/// The pointers that appending to `object` reads are live.
pub open spec fn add_ok(m: StoreView, object: NodeId) -> bool {
    &&& m.live(object)
    &&& m.nodes[object].child matches Some(c) ==> m.live(c) && (m.nodes[c].prev matches Some(t) ==> m.live(t))
}

/// `after` is `mid` with `n` given the owned key `name` and appended to `object`.
pub open spec fn added_entry(mid: StoreView, after: StoreView, object: NodeId, name: Seq<u8>, n: NodeId) -> bool {
    exists|sid: StrId| #![trigger rekeyed(mid, n, sid, name, false)] {
        &&& !mid.strings.contains_key(sid)
        &&& after.str_slots >= mid.str_slots
        &&& sid.0 < after.str_slots
        &&& after == appended(StoreView { str_slots: after.str_slots, ..rekeyed(mid, n, sid, name, false) }, object, n)
    }
}

/// The outcome of adding a fresh node holding `d` to `object` under `name`: `None`, with
/// the store unchanged, exactly when allocation fails.
pub open spec fn added_node(before: StoreView, after: StoreView, object: NodeId, name: Seq<u8>, r: Option<NodeId>, d: NodeData) -> bool {
    match r {
        None => before.fail_allocs && after == before,
        Some(n) => !before.fail_allocs && exists|mid: StoreView| #[trigger] created(before, mid, Some(n), d) && added_entry(mid, after, object, name, n),
    }
}

/// As `added_node`, for a fresh node of type `ty` owning a copy of `bytes`.
pub open spec fn added_str_node(before: StoreView, after: StoreView, object: NodeId, name: Seq<u8>, r: Option<NodeId>, ty: i32, bytes: Seq<u8>) -> bool {
    match r {
        None => before.fail_allocs && after == before,
        Some(n) => !before.fail_allocs && exists|mid: StoreView| #[trigger] created_str(before, mid, Some(n), ty, bytes) && added_entry(mid, after, object, name, n),
    }
}

/// Add the freshly created `n` to `object` under `name`.
fn attach_fresh(store: &mut SafeStore, object: NodeId, name: &[u8], n: NodeId) -> (r: Option<NodeId>)
    requires
        add_ok(old(store)@, object),
        old(store)@.live(n),
        n != object,
        !old(store)@.fail_allocs,
    ensures
        r == Some(n),
        added_entry(old(store)@, final(store)@, object, name@, n),
{
    if add_item_to_object(store, object, name, n, false) {
        Some(n)
    } else {
        store.delete(Some(n));
        None
    }
}

/// After a node `n` was created in `before`, `object` can still be appended to.
proof fn lemma_fresh_add_ok(before: StoreView, mid: StoreView, object: NodeId, n: NodeId, d: NodeData)
    requires
        add_ok(before, object),
        !before.live(n),
        mid.nodes == before.nodes.insert(n, d),
    ensures
        add_ok(mid, object),
        mid.live(n),
        n != object,
{
}

/// Shared body of the shorthands whose node carries no string.
fn add_created(store: &mut SafeStore, object: NodeId, name: &[u8], c: Option<NodeId>, Ghost(before): Ghost<StoreView>, Ghost(d): Ghost<NodeData>) -> (r: Option<NodeId>)
    requires
        add_ok(before, object),
        created(before, old(store)@, c, d),
    ensures
        added_node(before, final(store)@, object, name@, r, d),
{
    let n = match c {
        Some(n) => n,
        None => return None,
    };
    let ghost mid = store@;
    proof { lemma_fresh_add_ok(before, mid, object, n, d); }
    let r = attach_fresh(store, object, name, n);
    assert(created(before, mid, Some(n), d));
    r
}

/// Shared body of the shorthands whose node owns a string.
fn add_created_str(
    store: &mut SafeStore,
    object: NodeId,
    name: &[u8],
    c: Option<NodeId>,
    Ghost(before): Ghost<StoreView>,
    Ghost(ty): Ghost<i32>,
    Ghost(bytes): Ghost<Seq<u8>>,
) -> (r: Option<NodeId>)
    requires
        add_ok(before, object),
        created_str(before, old(store)@, c, ty, bytes),
    ensures
        added_str_node(before, final(store)@, object, name@, r, ty, bytes),
{
    let n = match c {
        Some(n) => n,
        None => return None,
    };
    let ghost mid = store@;
    proof {
        let sid = choose|sid: StrId| {
            &&& !before.strings.contains_key(sid)
            &&& sid.0 < mid.str_slots
            &&& mid.nodes == before.nodes.insert(n, NodeData { ty, valuestring: Some(sid), ..NodeData::empty() })
            &&& mid.strings == before.strings.insert(sid, bytes)
            &&& mid.str_slots >= before.str_slots
            &&& mid.fail_allocs == before.fail_allocs
        };
        lemma_fresh_add_ok(before, mid, object, n, NodeData { ty, valuestring: Some(sid), ..NodeData::empty() });
    }
    let r = attach_fresh(store, object, name, n);
    assert(created_str(before, mid, Some(n), ty, bytes));
    r
}

/// Add a null node to `object` under `name`.
pub fn add_null_to_object(store: &mut SafeStore, object: NodeId, name: &[u8]) -> (r: Option<NodeId>)
    requires
        add_ok(old(store)@, object),
    ensures
        added_node(old(store)@, final(store)@, object, name@, r, typed(NULL)),
{
    let ghost before = store@;
    let c = create_null(store);
    add_created(store, object, name, c, Ghost(before), Ghost(typed(NULL)))
}

/// Add a true node to `object` under `name`.
pub fn add_true_to_object(store: &mut SafeStore, object: NodeId, name: &[u8]) -> (r: Option<NodeId>)
    requires
        add_ok(old(store)@, object),
    ensures
        added_node(old(store)@, final(store)@, object, name@, r, typed(TRUE)),
{
    let ghost before = store@;
    let c = create_true(store);
    add_created(store, object, name, c, Ghost(before), Ghost(typed(TRUE)))
}

/// Add a false node to `object` under `name`.
pub fn add_false_to_object(store: &mut SafeStore, object: NodeId, name: &[u8]) -> (r: Option<NodeId>)
    requires
        add_ok(old(store)@, object),
    ensures
        added_node(old(store)@, final(store)@, object, name@, r, typed(FALSE)),
{
    let ghost before = store@;
    let c = create_false(store);
    add_created(store, object, name, c, Ghost(before), Ghost(typed(FALSE)))
}

/// Add a boolean node to `object` under `name`.
pub fn add_bool_to_object(store: &mut SafeStore, object: NodeId, name: &[u8], v: bool) -> (r: Option<NodeId>)
    requires
        add_ok(old(store)@, object),
    ensures
        added_node(old(store)@, final(store)@, object, name@, r, typed(if v { TRUE } else { FALSE })),
{
    let ghost before = store@;
    let c = create_bool(store, v);
    add_created(store, object, name, c, Ghost(before), Ghost(typed(if v { TRUE } else { FALSE })))
}

/// Add a number node to `object` under `name`, with the number given as its `f64` bits and the
/// saturated integer value.
pub fn add_number_to_object(store: &mut SafeStore, object: NodeId, name: &[u8], valuedouble: u64, valueint: i32) -> (r: Option<NodeId>)
    requires
        add_ok(old(store)@, object),
    ensures
        added_node(old(store)@, final(store)@, object, name@, r, NodeData { ty: NUMBER, valueint, valuedouble, ..NodeData::empty() }),
{
    let ghost before = store@;
    let c = create_number(store, valuedouble, valueint);
    add_created(store, object, name, c, Ghost(before), Ghost(NodeData { ty: NUMBER, valueint, valuedouble, ..NodeData::empty() }))
}

/// Add a string node to `object` under `name`.
pub fn add_string_to_object(store: &mut SafeStore, object: NodeId, name: &[u8], s: &[u8]) -> (r: Option<NodeId>)
    requires
        add_ok(old(store)@, object),
    ensures
        added_str_node(old(store)@, final(store)@, object, name@, r, STRING, s@),
{
    let ghost before = store@;
    let c = create_string(store, s);
    add_created_str(store, object, name, c, Ghost(before), Ghost(STRING), Ghost(s@))
}

/// Add a raw node to `object` under `name`.
pub fn add_raw_to_object(store: &mut SafeStore, object: NodeId, name: &[u8], s: &[u8]) -> (r: Option<NodeId>)
    requires
        add_ok(old(store)@, object),
    ensures
        added_str_node(old(store)@, final(store)@, object, name@, r, RAW, s@),
{
    let ghost before = store@;
    let c = create_raw(store, s);
    add_created_str(store, object, name, c, Ghost(before), Ghost(RAW), Ghost(s@))
}

/// Add an empty object to `object` under `name`.
pub fn add_object_to_object(store: &mut SafeStore, object: NodeId, name: &[u8]) -> (r: Option<NodeId>)
    requires
        add_ok(old(store)@, object),
    ensures
        added_node(old(store)@, final(store)@, object, name@, r, typed(OBJECT)),
{
    let ghost before = store@;
    let c = create_object(store);
    add_created(store, object, name, c, Ghost(before), Ghost(typed(OBJECT)))
}

/// Add an empty array to `object` under `name`.
pub fn add_array_to_object(store: &mut SafeStore, object: NodeId, name: &[u8]) -> (r: Option<NodeId>)
    requires
        add_ok(old(store)@, object),
    ensures
        added_node(old(store)@, final(store)@, object, name@, r, typed(ARRAY)),
{
    let ghost before = store@;
    let c = create_array(store);
    add_created(store, object, name, c, Ghost(before), Ghost(typed(ARRAY)))
}

} // verus!
