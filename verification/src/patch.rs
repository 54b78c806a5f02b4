//! RFC 6902 JSON Patch helpers over the store: operation names, detaching by path, and
//! index-based edits of arrays.
use vstd::prelude::*;
use crate::store::{NodeId, NodeData, SafeStore, StoreView};
use crate::tree::{Tree, tree_ids, tops};
use crate::types::{spec_type_kind, STRING, ARRAY, OBJECT};
use crate::dom::typed;
use crate::pointer::{array_index, decode_token, decode_pointer, decode_array_index};
use crate::compare::tree_ready;
use crate::utils::{ptr_walk, token_end, token_child, lemma_token_end, lemma_token_child, get_item_from_pointer};
use crate::dom::{
    listed, keyed_walkable, walkable, unlinked, unlink_ok, lemma_unlink_list, lemma_first_stop, first_stop, object_lookup,
    detach_item_via_pointer, detach_item_from_object, get_object_item, appended, inserted_before, add_item_to_array,
    lemma_insert_list, is_array, is_object, is_string, kind_is,
};

verus! {

/// The node at `which` in the chain `s` from the current node, walking at most `which` steps.
fn walk_to(store: &SafeStore, array: NodeId, which: usize, Ghost(s): Ghost<Seq<NodeId>>) -> (r: (Option<NodeId>, usize))
    requires
        store@.live(array),
        store@.is_chain(store@.nodes[array].child, s),
    ensures
        r.0 == (if which < s.len() { Some(s[which as int]) } else { None::<NodeId> }),
        r.1 == (if which <= s.len() { 0 } else { which - s.len() }),
{
    let mut c = store.child(array);
    let mut left = which;
    let ghost mut k: int = 0;
    while c.is_some() && left > 0
        invariant
            store@.is_chain(store@.nodes[array].child, s),
            0 <= k <= s.len(),
            k + left == which,
            c == (if k < s.len() { Some(s[k]) } else { None::<NodeId> }),
        decreases left,
    {
        c = store.next(c.unwrap());
        left -= 1;
        proof { k = k + 1; }
    }
    (c, left)
}

/// Detach the child of `array` at index `which`; `None` past the end.
pub fn detach_item_from_array_usize(store: &mut SafeStore, array: NodeId, which: usize) -> (r: Option<NodeId>)
    requires
        listed(old(store)@, array),
    ensures
        r == (if which < old(store)@.children(array).len() { Some(old(store)@.children(array)[which as int]) } else { None }),
        r is None ==> final(store)@ == old(store)@,
        r is Some ==> final(store)@ == unlinked(old(store)@, array, r.unwrap()),
{
    let ghost s = store@.children(array);
    proof { crate::tree::lemma_chain_is(store@, store@.nodes[array].child, s); }
    let (c, _) = walk_to(store, array, which, Ghost(s));
    let item = match c {
        Some(i) => i,
        None => return None,
    };
    proof { lemma_unlink_list(store@, array, s, which as int); }
    detach_item_via_pointer(store, array, item)
}

/// Put `newitem` at index `which` of `array`, or at its end when `which` is its length.
/// `false` past the end, or when the node at the index is not the first child and has no `prev`.
pub fn insert_item_in_array_usize(store: &mut SafeStore, array: NodeId, which: usize, newitem: NodeId) -> (r: bool)
    requires
        listed(old(store)@, array),
        old(store)@.live(newitem),
    ensures
        which > old(store)@.children(array).len() ==> !r && final(store)@ == old(store)@,
        which < old(store)@.children(array).len() ==> r
            && final(store)@ == inserted_before(old(store)@, array, old(store)@.children(array)[which as int], newitem),
        which == old(store)@.children(array).len() ==> r == (array != newitem)
            && final(store)@ == (if r { appended(old(store)@, array, newitem) } else { old(store)@ }),
        which < old(store)@.children(array).len() && !old(store)@.children(array).contains(newitem) && newitem != array
            ==> final(store)@.is_list(final(store)@.nodes[array].child, old(store)@.children(array).insert(which as int, newitem)),
{
    let ghost m = store@;
    let ghost s = m.children(array);
    proof { crate::tree::lemma_chain_is(m, m.nodes[array].child, s); }
    let (child, left) = walk_to(store, array, which, Ghost(s));
    if left > 0 {
        return false;
    }
    let after = match child {
        Some(a) => a,
        None => {
            proof {
                if s.len() > 0 {
                    assert(m.live(s[0]));
                    assert(s[s.len() - 1] == s.last());
                    assert(m.live(s.last()));
                }
            }
            return add_item_to_array(store, array, newitem);
        },
    };
    proof {
        assert(m.live(after));
        if which > 0 {
            assert(m.nodes[after].prev == Some(s[which - 1]));
        }
    }
    let c0 = store.child(array);
    if !(c0.is_some() && c0.unwrap() == after) && store.prev(after).is_none() {
        return false;
    }
    store.set_next(newitem, Some(after));
    let pv = store.prev(after);
    store.set_prev(newitem, pv);
    store.set_prev(after, Some(newitem));
    let c1 = store.child(array);
    if c1.is_some() && c1.unwrap() == after {
        store.set_child(array, Some(newitem));
    } else {
        match store.prev(newitem) {
            Some(p) => {
                store.set_next(p, Some(newitem));
            },
            None => {},
        }
    }
    proof {
        if !s.contains(newitem) && newitem != array {
            lemma_insert_list(m, array, s, which as int, newitem);
        }
    }
    true
}

/// The operation a patch names in its `op` member.
#[derive(PartialEq, Eq, Structural, Clone, Copy, Debug)]
pub enum PatchOp {
    Invalid,
    Add,
    Remove,
    Replace,
    Move,
    Copy,
    Test,
}

/// The operation named by the bytes `b`.
pub open spec fn op_named(b: Option<Seq<u8>>) -> PatchOp {
    match b {
        None => PatchOp::Invalid,
        Some(b) => if b == seq![97u8, 100, 100] {
            PatchOp::Add
        } else if b == seq![114u8, 101, 109, 111, 118, 101] {
            PatchOp::Remove
        } else if b == seq![114u8, 101, 112, 108, 97, 99, 101] {
            PatchOp::Replace
        } else if b == seq![109u8, 111, 118, 101] {
            PatchOp::Move
        } else if b == seq![99u8, 111, 112, 121] {
            PatchOp::Copy
        } else if b == seq![116u8, 101, 115, 116] {
            PatchOp::Test
        } else {
            PatchOp::Invalid
        },
    }
}

/// The bytes `op`.
pub open spec fn op_name() -> Seq<u8> {
    seq![111u8, 112]
}

/// The member of `patch` named `name` (as `get_object_item` finds it).
pub open spec fn member(m: StoreView, patch: NodeId, name: Seq<u8>, cs: bool) -> Option<NodeId> {
    object_lookup(m, m.children(patch), name, cs)
}

/// The members of `p` can be looked up, and their values read.
pub open spec fn entries_ok(m: StoreView, p: NodeId) -> bool {
    &&& keyed_walkable(m, p)
    &&& forall|i: int| 0 <= i < m.children(p).len() ==> m.str_ok(m.nodes[#[trigger] m.children(p)[i]].valuestring)
}

/// The operation of the patch object `patch`: its `op` member, when a string, by name.
pub open spec fn patch_op(m: StoreView, patch: NodeId, cs: bool) -> PatchOp {
    match member(m, patch, op_name(), cs) {
        None => PatchOp::Invalid,
        Some(op) => if spec_type_kind(m.nodes[op].ty) != STRING {
            PatchOp::Invalid
        } else {
            op_named(m.valuestring_of(op))
        },
    }
}

/// A found member is one of the children.
proof fn lemma_member_child(m: StoreView, p: NodeId, name: Seq<u8>, cs: bool)
    requires
        walkable(m, p),
        member(m, p, name, cs) is Some,
    ensures
        exists|i: int| 0 <= i < m.children(p).len() && m.children(p)[i] == member(m, p, name, cs).unwrap(),
{
    let s = m.children(p);
    lemma_first_stop(m, s, name, cs, 0);
    let i = first_stop(m, s, name, cs, 0);
    assert(s[i] == member(m, p, name, cs).unwrap());
}

/// Classify the bytes of an operation name.
fn op_from_bytes(b: Option<&[u8]>) -> (r: PatchOp)
    ensures
        r == op_named(crate::types::opt_bytes(b)),
{
    let x = match b {
        Some(x) => x,
        None => return PatchOp::Invalid,
    };
    let add: Vec<u8> = vec![97u8, 100, 100];
    let remove: Vec<u8> = vec![114u8, 101, 109, 111, 118, 101];
    let replace: Vec<u8> = vec![114u8, 101, 112, 108, 97, 99, 101];
    let mv: Vec<u8> = vec![109u8, 111, 118, 101];
    let cp: Vec<u8> = vec![99u8, 111, 112, 121];
    let test: Vec<u8> = vec![116u8, 101, 115, 116];
    proof {
        assert(add@ == seq![97u8, 100, 100]);
        assert(remove@ == seq![114u8, 101, 109, 111, 118, 101]);
        assert(replace@ == seq![114u8, 101, 112, 108, 97, 99, 101]);
        assert(mv@ == seq![109u8, 111, 118, 101]);
        assert(cp@ == seq![99u8, 111, 112, 121]);
        assert(test@ == seq![116u8, 101, 115, 116]);
    }
    if crate::types::bytes_equal(x, add.as_slice()) {
        PatchOp::Add
    } else if crate::types::bytes_equal(x, remove.as_slice()) {
        PatchOp::Remove
    } else if crate::types::bytes_equal(x, replace.as_slice()) {
        PatchOp::Replace
    } else if crate::types::bytes_equal(x, mv.as_slice()) {
        PatchOp::Move
    } else if crate::types::bytes_equal(x, cp.as_slice()) {
        PatchOp::Copy
    } else if crate::types::bytes_equal(x, test.as_slice()) {
        PatchOp::Test
    } else {
        PatchOp::Invalid
    }
}

/// The member of `patch` named by the bytes `name`.
pub fn find_member(store: &SafeStore, patch: NodeId, name: &Vec<u8>, cs: bool) -> (r: Option<NodeId>)
    requires
        keyed_walkable(store@, patch),
    ensures
        r == member(store@, patch, name@, cs),
        r matches Some(x) ==> exists|i: int| 0 <= i < store@.children(patch).len() && store@.children(patch)[i] == x,
{
    let r = get_object_item(store, Some(patch), Some(name.as_slice()), cs);
    proof {
        if r is Some {
            lemma_member_child(store@, patch, name@, cs);
        }
    }
    r
}

/// The operation the `op` member of `patch` names.
pub fn decode_patch_operation(store: &SafeStore, patch: NodeId, case_sensitive: bool) -> (r: PatchOp)
    requires
        entries_ok(store@, patch),
    ensures
        r == patch_op(store@, patch, case_sensitive),
{
    let key: Vec<u8> = vec![111u8, 112];
    proof { assert(key@ == op_name()); }
    let op = match find_member(store, patch, &key, case_sensitive) {
        Some(o) => o,
        None => return PatchOp::Invalid,
    };
    if !is_string(store, Some(op)) {
        return PatchOp::Invalid;
    }
    op_from_bytes(store.valuestring_bytes(op))
}

/// The index of the last `/` in `p` before `i`, or `-1`.
pub open spec fn last_slash(p: Seq<u8>, i: int) -> int
    decreases i,
{
    if i <= 0 || i > p.len() {
        -1
    } else if p[i - 1] == 47 {
        i - 1
    } else {
        last_slash(p, i - 1)
    }
}

pub proof fn lemma_last_slash(p: Seq<u8>, i: int)
    requires
        0 <= i <= p.len(),
    ensures
        -1 <= last_slash(p, i) < i,
        last_slash(p, i) >= 0 ==> p[last_slash(p, i)] == 47,
    decreases i,
{
    if i > 0 && p[i - 1] != 47 {
        lemma_last_slash(p, i - 1);
    }
}

/// The position of the last `/` of `path`.
pub fn rposition_slash(path: &[u8]) -> (r: Option<usize>)
    ensures
        r == (if last_slash(path@, path@.len() as int) < 0 { None::<usize> } else { Some(last_slash(path@, path@.len() as int) as usize) }),
{
    let mut i: usize = path.len();
    while i > 0
        invariant
            i <= path@.len(),
            last_slash(path@, path@.len() as int) == last_slash(path@, i as int),
        decreases i,
    {
        if path[i - 1] == 47 {
            return Some(i - 1);
        }
        i -= 1;
    }
    None
}

/// Every node of `t` can be looked up and edited: its children form a list with keys that
/// can be read.
pub open spec fn tree_edit_ok(m: StoreView, t: Tree) -> bool {
    &&& tree_ready(m, t)
    &&& forall|id: NodeId| #[trigger] tree_ids(t).contains(id) ==> listed(m, id) && keyed_walkable(m, id)
}

/// The parent and the node that `path` names below the tree `t`: the parent is what the
/// path before its last `/` leads to, the node its child by the decoded last token.
pub open spec fn path_target(m: StoreView, t: Tree, path: Seq<u8>, cs: bool) -> Option<(NodeId, NodeId)> {
    let k = last_slash(path, path.len() as int);
    if k < 0 {
        None
    } else {
        let child = decode_token(path.subrange(k + 1, path.len() as int));
        match ptr_walk(m, Some(t), path.subrange(0, k), 0, cs) {
            None => None,
            Some(p) => if spec_type_kind(m.nodes[p].ty) == ARRAY {
                match array_index(child) {
                    None => None,
                    Some(ix) => if ix < m.children(p).len() { Some((p, m.children(p)[ix as int])) } else { None },
                }
            } else if spec_type_kind(m.nodes[p].ty) == OBJECT {
                match object_lookup(m, m.children(p), child, cs) {
                    None => None,
                    Some(x) => Some((p, x)),
                }
            } else {
                None
            },
        }
    }
}

/// Detach the node that `path` names below `object` from its parent.
pub fn detach_path(store: &mut SafeStore, object: NodeId, path: &[u8], case_sensitive: bool) -> (r: Option<NodeId>)
    requires
        old(store)@.has_tree(object, false),
        tree_edit_ok(old(store)@, old(store)@.tree_of(object, false)),
    ensures
        ({
            let tgt = path_target(old(store)@, old(store)@.tree_of(object, false), path@, case_sensitive);
            &&& r == (match tgt { Some(pi) => Some(pi.1), None => None::<NodeId> })
            &&& tgt is None ==> final(store)@ == old(store)@
            &&& tgt matches Some(pi) ==> final(store)@ == unlinked(old(store)@, pi.0, pi.1)
        }),
{
    let ghost m = store@;
    let ghost t = m.tree_of(object, false);
    proof { crate::tree::lemma_tree_is(m, t, false); }
    let slash = match rposition_slash(path) {
        Some(k) => k,
        None => return None,
    };
    proof { lemma_last_slash(path@, path@.len() as int); }
    let n = path.len();
    let parent_path = crate::string::slice_range(path, 0, slash);
    let child_enc = crate::string::slice_range(path, slash + 1, n);
    let child = decode_pointer(child_enc);
    let parent = match get_item_from_pointer(store, Some(object), parent_path, case_sensitive) {
        Some(p) => p,
        None => return None,
    };
    proof {
        crate::utils::lemma_walk_in_tree(m, t, parent_path@, 0, case_sensitive);
        assert(listed(m, parent) && keyed_walkable(m, parent));
    }
    if is_array(store, Some(parent)) {
        let index = match decode_array_index(child.as_slice()) {
            Some(i) => i,
            None => return None,
        };
        detach_item_from_array_usize(store, parent, index)
    } else if is_object(store, Some(parent)) {
        detach_item_from_object(store, parent, child.as_slice(), case_sensitive)
    } else {
        None
    }
}

/// `after` keeps every node and string of `before` as it was, adding to them.
pub open spec fn grows(before: StoreView, after: StoreView) -> bool {
    &&& forall|x: NodeId| #[trigger] before.live(x) ==> after.live(x) && after.nodes[x] == before.nodes[x]
    &&& forall|k: crate::store::StrId| #[trigger] before.strings.contains_key(k)
        ==> after.strings.contains_key(k) && after.strings[k] == before.strings[k]
    &&& after.fail_allocs == before.fail_allocs
}

/// Giving the fresh node `n` a key and appending it to the fresh object `p`, whose member
/// list is made of fresh nodes, keeps every node of `m0`; `n` becomes the last member.
#[verifier::spinoff_prover]
#[verifier::rlimit(40)]
proof fn lemma_entry_grows(m0: StoreView, mid: StoreView, after: StoreView, p: NodeId, n: NodeId, name: Seq<u8>)
    requires
        crate::members::added_entry(mid, after, p, name, n),
        grows(m0, mid),
        !m0.live(p),
        !m0.live(n),
        mid.live(p),
        mid.live(n),
        p != n,
        mid.nodes[n].key matches Some(k) ==> !m0.strings.contains_key(k),
        mid.nodes[p].child matches Some(c) ==> !m0.live(c) && mid.live(c) && c != n
            && mid.nodes[c].prev is Some
            && (mid.nodes[c].prev matches Some(t) ==> !m0.live(t) && mid.live(t) && t != n),
    ensures
        grows(m0, after),
        after.live(p),
        after.live(n),
        after.nodes[p].child == (match mid.nodes[p].child { Some(c) => Some(c), None => Some(n) }),
        after.nodes[after.nodes[p].child.unwrap()].prev == Some(n),
        after.nodes[p].ty == mid.nodes[p].ty,
{
    let sid = choose|sid: crate::store::StrId| #![trigger crate::dom::rekeyed(mid, n, sid, name, false)] {
        &&& !mid.strings.contains_key(sid)
        &&& after.str_slots >= mid.str_slots
        &&& sid.0 < after.str_slots
        &&& after == appended(StoreView { str_slots: after.str_slots, ..crate::dom::rekeyed(mid, n, sid, name, false) }, p, n)
    };
    let mr = StoreView { str_slots: after.str_slots, ..crate::dom::rekeyed(mid, n, sid, name, false) };
    assert(mr.nodes[p] == mid.nodes[p]);
    assert forall|x: NodeId| #[trigger] m0.live(x) implies after.live(x) && after.nodes[x] == m0.nodes[x] by {
        assert(mid.live(x));
        assert(x != n && x != p);
        if mid.nodes[p].child is Some {
            let c = mid.nodes[p].child.unwrap();
            assert(x != c);
            if mid.nodes[c].prev is Some {
                assert(x != mid.nodes[c].prev.unwrap());
            }
        }
    }
    assert forall|k: crate::store::StrId| #[trigger] m0.strings.contains_key(k)
        implies after.strings.contains_key(k) && after.strings[k] == m0.strings[k] by {
        assert(mid.strings.contains_key(k));
    }
}

/// `o` is a live string member keyed `name` holding `bytes`.
pub open spec fn str_member(m: StoreView, o: NodeId, name: Seq<u8>, bytes: Seq<u8>) -> bool {
    &&& m.live(o)
    &&& m.key_of(o) == Some(name)
    &&& spec_type_kind(m.nodes[o].ty) == STRING
    &&& m.valuestring_of(o) == Some(bytes)
}

/// The node `d` holds what the node `v` holds at its root: its kind, its number and its
/// string (both strings live).
#[verifier::opaque]
pub open spec fn value_copied(m: StoreView, d: NodeId, v: NodeId) -> bool {
    &&& m.live(v)
    &&& spec_type_kind(m.nodes[d].ty) == spec_type_kind(m.nodes[v].ty)
    &&& m.nodes[d].valueint == m.nodes[v].valueint
    &&& m.nodes[d].valuedouble == m.nodes[v].valuedouble
    &&& m.valuestring_of(d) == m.valuestring_of(v)
    &&& m.nodes[d].valuestring matches Some(s) ==> m.strings.contains_key(s)
    &&& m.nodes[v].valuestring matches Some(s) ==> m.strings.contains_key(s)
}

/// The patch object `q` reads `{"op": op, "path": path}`, followed by a member keyed
/// `value` only when the patch carries a value, holding a copy of that value.
pub open spec fn patch_is(m: StoreView, q: NodeId, op: Seq<u8>, path: Seq<u8>, value: Option<NodeId>) -> bool {
    let o = m.nodes[q].child.unwrap();
    let r = m.nodes[o].next.unwrap();
    &&& m.live(q)
    &&& spec_type_kind(m.nodes[q].ty) == OBJECT
    &&& m.nodes[q].child is Some
    &&& str_member(m, o, op_name(), op)
    &&& m.nodes[o].next is Some
    &&& str_member(m, r, path_name(), path)
    &&& (match m.nodes[r].next {
        Some(d) => value is Some && m.live(d) && m.key_of(d) == Some(value_name()) && m.nodes[d].next is None
            && value_copied(m, d, value.unwrap()),
        None => true,
    })
    &&& value is None ==> m.nodes[r].next is None
}

/// The `value` member of a patch object holds what the patch's value holds at its root: the
/// same kind, number and string.
pub proof fn law_patch_value(m: StoreView, q: NodeId, op: Seq<u8>, path: Seq<u8>, v: NodeId)
    requires
        patch_is(m, q, op, path, Some(v)),
        m.nodes[m.nodes[m.nodes[q].child.unwrap()].next.unwrap()].next is Some,
    ensures
        ({
            let d = m.nodes[m.nodes[m.nodes[q].child.unwrap()].next.unwrap()].next.unwrap();
            &&& m.key_of(d) == Some(value_name())
            &&& spec_type_kind(m.nodes[d].ty) == spec_type_kind(m.nodes[v].ty)
            &&& m.nodes[d].valueint == m.nodes[v].valueint
            &&& m.nodes[d].valuedouble == m.nodes[v].valuedouble
            &&& m.valuestring_of(d) == m.valuestring_of(v)
        }),
{
    reveal(value_copied);
}

/// The members of the patch object `q`.
pub open spec fn patch_feet(m: StoreView, q: NodeId) -> Set<NodeId> {
    let o = m.nodes[q].child.unwrap();
    let r = m.nodes[o].next.unwrap();
    match m.nodes[r].next {
        Some(d) => set![o, r, d],
        None => set![o, r],
    }
}

/// What composing built before appending: `before` grown by the fresh patch object `q`
/// and its fresh members, `q` reading as the patch `op`, `path`, `value`.
pub open spec fn compose_mid(before: StoreView, mid: StoreView, q: NodeId, op: Seq<u8>, path: Seq<u8>, value: Option<NodeId>) -> bool {
    &&& grows(before, mid)
    &&& !before.live(q)
    &&& mid.live(q)
    &&& forall|x: NodeId| #[trigger] patch_feet(mid, q).contains(x) ==> !before.live(x) && x != q
    &&& patch_is(mid, q, op, path, value)
    &&& mid.nodes[q].next is None
    &&& mid.str_slots >= before.str_slots
}

/// Composing took `before` to `after` through `mid`, appending `q` to `patches`.
pub open spec fn composed_via(before: StoreView, after: StoreView, patches: NodeId, op: Seq<u8>, path: Seq<u8>, value: Option<NodeId>, q: NodeId, mid: StoreView) -> bool {
    compose_mid(before, mid, q, op, path, value) && after == appended(mid, patches, q)
}

/// Composing took `before` to `after` (see `composed_via`).
pub open spec fn composed_as(before: StoreView, after: StoreView, patches: NodeId, op: Seq<u8>, path: Seq<u8>, value: Option<NodeId>) -> bool {
    exists|q: NodeId, mid: StoreView| #[trigger] composed_via(before, after, patches, op, path, value, q, mid)
}

/// The path `path`, followed by `/` and the encoded `suffix` when there is one.
pub open spec fn patch_path(path: Seq<u8>, suffix: Option<Seq<u8>>) -> Seq<u8> {
    match suffix {
        Some(suf) => path.push(47u8) + crate::pointer::encode_token(suf),
        None => path,
    }
}

/// The value member of a composed patch: none without a value or when the value is too
/// deep to copy; else a copy of the value keyed `value`.
pub open spec fn value_added(m3: StoreView, m4: StoreView, p: NodeId, value: Option<NodeId>) -> bool {
    match value {
        None => m4 == m3,
        Some(v) => if !crate::dup::depth_ok(crate::dup::dup_source(m3, v, true), 0) {
            m4 == m3
        } else {
            exists|md: StoreView, d: NodeId| #[trigger] crate::dup::dup_done(m3, md, d, v, true)
                && crate::members::added_entry(md, m4, p, value_name(), d)
        },
    }
}

pub open spec fn value_name() -> Seq<u8> {
    seq![118u8, 97, 108, 117, 101]
}

pub open spec fn path_name() -> Seq<u8> {
    seq![112u8, 97, 116, 104]
}

/// The outcome of composing a patch object `{"op": op, "path": path, "value": copy}` and
/// appending it to `patches`: nothing when allocation fails.
pub open spec fn patch_composed(before: StoreView, after: StoreView, patches: NodeId, op: Seq<u8>, path: Seq<u8>, value: Option<NodeId>) -> bool {
    if before.fail_allocs {
        after == before
    } else {
        exists|p: NodeId, m1: StoreView, m2: StoreView, m3: StoreView, m4: StoreView, o: NodeId, q: NodeId|
            #[trigger] compose_steps(before, after, patches, op, path, value, p, m1, m2, m3, m4, o, q)
    }
}

/// The steps of composing a patch object `p` (with members `o` and `q`) through the
/// stores `m1` to `m4`.
pub open spec fn compose_steps(
    before: StoreView,
    after: StoreView,
    patches: NodeId,
    op: Seq<u8>,
    path: Seq<u8>,
    value: Option<NodeId>,
    p: NodeId,
    m1: StoreView,
    m2: StoreView,
    m3: StoreView,
    m4: StoreView,
    o: NodeId,
    q: NodeId,
) -> bool {
    &&& crate::dom::created(before, m1, Some(p), typed(OBJECT))
    &&& crate::members::added_str_node(m1, m2, p, op_name(), Some(o), STRING, op)
    &&& crate::members::added_str_node(m2, m3, p, path_name(), Some(q), STRING, path)
    &&& value_added(m3, m4, p, value)
    &&& after == appended(m4, patches, p)
}

/// What composing needs: `patches` can be appended to and the value can be copied.
pub open spec fn compose_ok(m: StoreView, patches: NodeId, value: Option<NodeId>) -> bool {
    &&& crate::members::add_ok(m, patches)
    &&& value matches Some(v) ==> crate::dup::dup_ready(m, v, true)
}

/// What copying needs holds in a store that grew.
proof fn lemma_grows_dup_ready(m0: StoreView, m: StoreView, v: NodeId)
    requires
        crate::dup::dup_ready(m0, v, true),
        grows(m0, m),
        m.str_slots >= m0.str_slots,
    ensures
        crate::dup::dup_ready(m, v, true),
        crate::dup::dup_source(m, v, true) == crate::dup::dup_source(m0, v, true),
{
    let t = m0.tree_of(v, false);
    crate::tree::lemma_tree_is(m0, t, false);
    assert(m0.agrees_on(m, tree_ids(t).to_set())) by {
        assert forall|x: NodeId| tree_ids(t).to_set().contains(x) implies (m0.live(x) == m.live(x)
            && (m0.live(x) ==> m0.nodes[x] == m.nodes[x])) by {
            assert(tree_ids(t).contains(x));
            crate::utils::lemma_tree_ids_live(m0, t, x);
        }
    }
    crate::tree::lemma_tree_frame(m0, m, t, false);
    crate::tree::lemma_tree_is(m, t, false);
    assert forall|id: NodeId| #[trigger] tree_ids(t).contains(id) implies m.str_ok(m.nodes[id].valuestring)
        && m.str_ok(m.nodes[id].key) by {
        crate::utils::lemma_tree_ids_live(m0, t, id);
    }
    assert forall|id: NodeId| #[trigger] tree_ids(t).contains(id) implies crate::dup::handles_live(m, id) by {
        crate::utils::lemma_tree_ids_live(m0, t, id);
        assert(crate::dup::handles_live(m0, id));
    }
}

/// The members list of the fresh object `p` after its first entry: `o` alone.
proof fn lemma_first_entry(m0: StoreView, m1: StoreView, m2: StoreView, p: NodeId, o: NodeId, name: Seq<u8>, bytes: Seq<u8>)
    requires
        grows(m0, m1),
        !m0.live(p),
        m1.live(p),
        m1.nodes[p].child is None,
        crate::members::added_str_node(m1, m2, p, name, Some(o), STRING, bytes),
    ensures
        grows(m0, m2),
        m2.str_slots >= m1.str_slots,
        !m0.live(o),
        m2.live(p),
        m2.live(o),
        p != o,
        m2.nodes[p].child == Some(o),
        m2.nodes[o].prev == Some(o),
        m2.nodes[p].ty == m1.nodes[p].ty,
        m2.nodes[p].next == m1.nodes[p].next,
        str_member(m2, o, name, bytes),
        m2.nodes[o].next is None,
{
    let mid = choose|mid: StoreView| #[trigger] crate::dom::created_str(m1, mid, Some(o), STRING, bytes)
        && crate::members::added_entry(mid, m2, p, name, o);
    let sid = choose|sid: crate::store::StrId| {
        &&& !m1.strings.contains_key(sid)
        &&& sid.0 < mid.str_slots
        &&& mid.nodes == m1.nodes.insert(o, NodeData { ty: STRING, valuestring: Some(sid), ..NodeData::empty() })
        &&& mid.strings == m1.strings.insert(sid, bytes)
        &&& mid.str_slots >= m1.str_slots
        &&& mid.fail_allocs == m1.fail_allocs
    };
    assert(grows(m0, mid));
    lemma_entry_grows(m0, mid, m2, p, o, name);
    let s2 = choose|s2: crate::store::StrId| #![trigger crate::dom::rekeyed(mid, o, s2, name, false)] {
        &&& !mid.strings.contains_key(s2)
        &&& m2.str_slots >= mid.str_slots
        &&& s2.0 < m2.str_slots
        &&& m2 == appended(StoreView { str_slots: m2.str_slots, ..crate::dom::rekeyed(mid, o, s2, name, false) }, p, o)
    };
    assert(((16i32 & !512i32) & 0xFF) == 16i32) by (bit_vector);
    assert(m2.nodes[o].key == Some(s2));
    assert(m2.nodes[o].valuestring == Some(sid));
    assert(m2.strings[s2] == name);
    assert(m2.strings[sid] == bytes);
}

/// The members list of `p` after its second entry: `o`, then `q`.
proof fn lemma_second_entry(m0: StoreView, m2: StoreView, m3: StoreView, p: NodeId, o: NodeId, q: NodeId, name: Seq<u8>, bytes: Seq<u8>, op: Seq<u8>)
    requires
        grows(m0, m2),
        !m0.live(p),
        !m0.live(o),
        m2.live(p),
        m2.live(o),
        p != o,
        m2.nodes[p].child == Some(o),
        m2.nodes[o].prev == Some(o),
        crate::members::added_str_node(m2, m3, p, name, Some(q), STRING, bytes),
    ensures
        grows(m0, m3),
        m3.str_slots >= m2.str_slots,
        !m0.live(q),
        m3.live(p),
        m3.live(o),
        m3.live(q),
        m3.nodes[p].child == Some(o),
        m3.nodes[o].prev == Some(q),
        m3.nodes[p].ty == m2.nodes[p].ty,
        m3.nodes[p].next == m2.nodes[p].next,
        str_member(m2, o, op_name(), op) ==> str_member(m3, o, op_name(), op),
        m3.nodes[o].next == Some(q),
        str_member(m3, q, name, bytes),
        m3.nodes[q].next is None,
        o != q,
        forall|k: crate::store::StrId| #[trigger] m2.strings.contains_key(k) ==> m3.strings.contains_key(k) && m3.strings[k] == m2.strings[k],
{
    let mid = choose|mid: StoreView| #[trigger] crate::dom::created_str(m2, mid, Some(q), STRING, bytes)
        && crate::members::added_entry(mid, m3, p, name, q);
    let sid = choose|sid: crate::store::StrId| {
        &&& !m2.strings.contains_key(sid)
        &&& sid.0 < mid.str_slots
        &&& mid.nodes == m2.nodes.insert(q, NodeData { ty: STRING, valuestring: Some(sid), ..NodeData::empty() })
        &&& mid.strings == m2.strings.insert(sid, bytes)
        &&& mid.str_slots >= m2.str_slots
        &&& mid.fail_allocs == m2.fail_allocs
    };
    assert(grows(m0, mid));
    assert(mid.nodes[p] == m2.nodes[p]);
    assert(mid.nodes[o] == m2.nodes[o]);
    lemma_entry_grows(m0, mid, m3, p, q, name);
    let s2 = choose|s2: crate::store::StrId| #![trigger crate::dom::rekeyed(mid, q, s2, name, false)] {
        &&& !mid.strings.contains_key(s2)
        &&& m3.str_slots >= mid.str_slots
        &&& s2.0 < m3.str_slots
        &&& m3 == appended(StoreView { str_slots: m3.str_slots, ..crate::dom::rekeyed(mid, q, s2, name, false) }, p, q)
    };
    assert(m3.live(o));
    assert(((16i32 & !512i32) & 0xFF) == 16i32) by (bit_vector);
    assert(m3.nodes[q].key == Some(s2));
    assert(m3.nodes[q].valuestring == Some(sid));
    assert(m3.strings[s2] == name);
    assert(m3.strings[sid] == bytes);
}

/// Append to `patches` an object with the members `op`, `path`
/// (with `/` and the encoded `suffix` added when there is one) and, when there is a value
/// that can be copied, `value` holding a copy of it.
#[verifier::spinoff_prover]
#[verifier::rlimit(60)]
pub fn compose_patch(
    store: &mut SafeStore,
    patches: NodeId,
    operation: &[u8],
    path: &[u8],
    suffix: Option<&[u8]>,
    value: Option<NodeId>,
)
    requires
        compose_ok(old(store)@, patches, value),
    ensures
        patch_composed(old(store)@, final(store)@, patches, operation@,
            patch_path(path@, crate::types::opt_bytes(suffix)), value),
        !old(store)@.fail_allocs ==> composed_as(old(store)@, final(store)@, patches, operation@,
            patch_path(path@, crate::types::opt_bytes(suffix)), value),
{
    let ghost m0 = store@;
    let patch = match crate::dom::create_object(store) {
        Some(p) => p,
        None => return,
    };
    let ghost m1 = store@;
    proof {
        assert(grows(m0, m1));
    }
    let op_key: Vec<u8> = vec![111u8, 112];
    proof { assert(op_key@ == op_name()); }
    let o = crate::members::add_string_to_object(store, patch, op_key.as_slice(), operation);
    let ghost m2 = store@;
    proof {
        lemma_first_entry(m0, m1, m2, patch, o.unwrap(), op_name(), operation@);
    }
    let mut full: Vec<u8> = vstd::slice::slice_to_vec(path);
    match suffix {
        Some(suf) => {
            full.push(47u8);
            let enc = crate::pointer::encode_string_as_pointer(suf);
            crate::string::push_all(&mut full, &enc);
        },
        None => {},
    }
    let path_key: Vec<u8> = vec![112u8, 97, 116, 104];
    proof { assert(path_key@ == path_name()); }
    let q = crate::members::add_string_to_object(store, patch, path_key.as_slice(), full.as_slice());
    let ghost m3 = store@;
    proof {
        lemma_second_entry(m0, m2, m3, patch, o.unwrap(), q.unwrap(), path_name(), full@, operation@);
        assert(full@ == patch_path(path@, crate::types::opt_bytes(suffix)));
    }
    match value {
        Some(v) => {
            proof { lemma_grows_dup_ready(m0, m3, v); }
            match crate::dup::duplicate(store, v, true) {
                Some(d) => {
                    let ghost md = store@;
                    let value_key: Vec<u8> = vec![118u8, 97, 108, 117, 101];
                    proof {
                        assert(value_key@ == value_name());
                        let t2 = choose|t2: Tree| #[trigger] crate::dup::duplicated(m3, md, d, t2, v, true);
                        assert(tree_ids(t2)[0] == d);
                        assert(tree_ids(t2).contains(d));
                        assert(md.nodes.dom().contains(d));
                    }
                    crate::dom::add_item_to_object(store, patch, value_key.as_slice(), d, false);
                    proof {
                        assert(crate::members::added_entry(md, store@, patch, value_name(), d));
                        assert(value_added(m3, store@, patch, value));
                    }
                },
                None => {},
            }
        },
        None => {},
    }
    let ghost m4 = store@;
    proof {
        assert(value_added(m3, m4, patch, value));
        assert(m4.live(patch));
        assert(m4.nodes[patches] == m0.nodes[patches]);
    }
    proof {
        assert((64i32 & 0xFF) == 64i32) by (bit_vector);
        if let Some(v) = value {
            lemma_grows_dup_ready(m0, m3, v);
        }
        lemma_value_step(m0, m3, m4, patch, o.unwrap(), q.unwrap(), value, operation@, full@);
    }
    crate::dom::add_item_to_array(store, patches, patch);
    proof {
        assert(compose_steps(m0, store@, patches, operation@, patch_path(path@, crate::types::opt_bytes(suffix)), value,
            patch, m1, m2, m3, m4, o.unwrap(), q.unwrap()));
        assert(composed_via(m0, store@, patches, operation@, patch_path(path@, crate::types::opt_bytes(suffix)), value, patch, m4));
    }
}

/// After the value step, the fresh object `p` reads as the composed patch.
#[verifier::spinoff_prover]
#[verifier::rlimit(60)]
proof fn lemma_value_step(m0: StoreView, m3: StoreView, m4: StoreView, p: NodeId, o: NodeId, q: NodeId, value: Option<NodeId>, op: Seq<u8>, path: Seq<u8>)
    requires
        grows(m0, m3),
        !m0.live(p),
        !m0.live(o),
        !m0.live(q),
        m3.live(p),
        p != o,
        p != q,
        o != q,
        spec_type_kind(m3.nodes[p].ty) == OBJECT,
        m3.nodes[p].next is None,
        m3.nodes[p].child == Some(o),
        m3.nodes[o].prev == Some(q),
        m3.nodes[o].next == Some(q),
        m3.nodes[q].next is None,
        str_member(m3, o, op_name(), op),
        str_member(m3, q, path_name(), path),
        value_added(m3, m4, p, value),
        m3.str_slots >= m0.str_slots,
        value matches Some(v) ==> crate::dup::dup_ready(m3, v, true) && m0.live(v),
    ensures
        compose_mid(m0, m4, p, op, path, value),
{
    match value {
        None => {
            assert(patch_feet(m4, p) =~= set![o, q]);
        },
        Some(v) => {
            if !crate::dup::depth_ok(crate::dup::dup_source(m3, v, true), 0) {
                assert(patch_feet(m4, p) =~= set![o, q]);
            } else {
                let (md, d) = choose|md: StoreView, d: NodeId| #[trigger] crate::dup::dup_done(m3, md, d, v, true)
                    && crate::members::added_entry(md, m4, p, value_name(), d);
                let t2 = choose|t2: Tree| #[trigger] crate::dup::duplicated(m3, md, d, t2, v, true);
                assert(tree_ids(t2)[0] == d);
                assert(tree_ids(t2).contains(d));
                assert(!m3.live(d));
                assert(md.live(d));
                assert(grows(m0, md)) by {
                    assert forall|x: NodeId| #[trigger] m0.live(x) implies md.live(x) && md.nodes[x] == m0.nodes[x] by {
                        assert(m3.live(x));
                    }
                }
                assert(md.nodes[o] == m3.nodes[o]);
                assert(md.nodes[q] == m3.nodes[q]);
                assert(md.nodes[p] == m3.nodes[p]);
                lemma_entry_grows(m0, md, m4, p, d, value_name());
                let sid = choose|sid: crate::store::StrId| #![trigger crate::dom::rekeyed(md, d, sid, value_name(), false)] {
                    &&& !md.strings.contains_key(sid)
                    &&& m4.str_slots >= md.str_slots
                    &&& sid.0 < m4.str_slots
                    &&& m4 == appended(StoreView { str_slots: m4.str_slots, ..crate::dom::rekeyed(md, d, sid, value_name(), false) }, p, d)
                };
                let mr = StoreView { str_slots: m4.str_slots, ..crate::dom::rekeyed(md, d, sid, value_name(), false) };
                assert(mr.nodes[o] == m3.nodes[o]);
                assert(mr.nodes[q] == m3.nodes[q]);
                assert(mr.nodes[p] == m3.nodes[p]);
                let ks = m3.nodes[o].key.unwrap();
                let vs = m3.nodes[o].valuestring.unwrap();
                let kq = m3.nodes[q].key.unwrap();
                let vq = m3.nodes[q].valuestring.unwrap();
                assert(md.strings.contains_key(ks) && md.strings[ks] == m3.strings[ks]);
                assert(md.strings.contains_key(vs) && md.strings[vs] == m3.strings[vs]);
                assert(md.strings.contains_key(kq) && md.strings[kq] == m3.strings[kq]);
                assert(md.strings.contains_key(vq) && md.strings[vq] == m3.strings[vq]);
                assert(m4.nodes[q].next == Some(d));
                assert(m4.nodes[o].next == Some(q));
                assert(str_member(m4, o, op_name(), op));
                assert(str_member(m4, q, path_name(), path));
                assert(m4.key_of(d) == Some(value_name()));
                assert(m4.nodes[d].next is None);
                assert(patch_feet(m4, p) =~= set![o, q, d]);
                // the value member holds the value's kind, number and string
                let src = crate::dup::dup_source(m3, v, true);
                assert(crate::dup::copy_of(md, t2, src, true));
                assert(crate::dup::node_copied(md, d, src.id));
                crate::tree::lemma_tree_is(m3, src, false);
                assert(src.id == v);
                assert(tree_ids(src)[0] == v);
                assert(tree_ids(src).contains(v));
                assert(crate::dup::handles_live(m3, v));
                assert(m3.live(v));
                assert(md.nodes[v] == m3.nodes[v]);
                assert(m4.nodes[v] == md.nodes[v]);
                let ty = md.nodes[v].ty;
                let tyd = md.nodes[d].ty;
                assert(tyd == ty & !crate::types::IS_REFERENCE);
                assert(m4.nodes[d].ty == tyd & !crate::types::STRING_IS_CONST);
                assert(((ty & !256i32) & !512i32) & 0xFF == ty & 0xFF) by (bit_vector);
                assert(m4.nodes[d].valuestring == md.nodes[d].valuestring);
                if let Some(sv) = m3.nodes[v].valuestring {
                    assert(m3.strings.contains_key(sv));
                    assert(md.strings.contains_key(sv) && md.strings[sv] == m3.strings[sv]);
                }
                if let Some(sd) = md.nodes[d].valuestring {
                    assert(md.strings.contains_key(sd));
                }
                reveal(value_copied);
                assert(value_copied(m4, d, v));
            }
        },
    }
}

/// Append the patch `{"op": operation, "path": path,
/// "value": copy of value}` to `array`.
pub fn add_patch_to_array(store: &mut SafeStore, array: NodeId, operation: &[u8], path: &[u8], value: Option<NodeId>)
    requires
        compose_ok(old(store)@, array, value),
    ensures
        patch_composed(old(store)@, final(store)@, array, operation@, path@, value),
{
    compose_patch(store, array, operation, path, None, value);
}

} // verus!
