//! Deep copies of a tree.
use vstd::prelude::*;
use crate::store::{NodeId, StrId, SafeStore, NodeData, StoreView};
use crate::tree::{Tree, tops, tree_ids, forest_ids};
use crate::types::IS_REFERENCE;
use crate::compare::{tree_ready, tsz};
use crate::parse::partial_list;

verus! {

/// The depth below which a copy may still descend.
pub const CIRCULAR_DEPTH: usize = 10000;

/// The string handles of `id` are absent or live.
pub open spec fn handles_live(m: StoreView, id: NodeId) -> bool {
    &&& m.nodes[id].valuestring matches Some(s) ==> m.strings.contains_key(s)
    &&& m.nodes[id].key matches Some(s) ==> m.strings.contains_key(s)
}

pub open spec fn strs_live(m: StoreView, t: Tree) -> bool {
    forall|id: NodeId| #[trigger] tree_ids(t).contains(id) ==> handles_live(m, id)
}

/// No node at depth `CIRCULAR_DEPTH` or below has children (the root is at `depth`).
pub open spec fn depth_ok(t: Tree, depth: nat) -> bool
    decreases t,
{
    t.kids.len() == 0 || (depth < 10000 && forall|i: int| 0 <= i < t.kids.len() ==> depth_ok(#[trigger] t.kids[i], depth + 1))
}

/// The node `n` holds a copy of the fields of `o`: the type without the reference flag, the
/// numbers, copies of the value string and the key.
pub open spec fn node_copied(m: StoreView, n: NodeId, o: NodeId) -> bool {
    let d1 = m.nodes[o];
    let d2 = m.nodes[n];
    &&& m.live(n)
    &&& d2.ty == d1.ty & !IS_REFERENCE
    &&& d2.valueint == d1.valueint
    &&& d2.valuedouble == d1.valuedouble
    &&& (d2.valuestring is Some) == (m.str_bytes(d1.valuestring) is Some)
    &&& m.str_bytes(d2.valuestring) == m.str_bytes(d1.valuestring)
    &&& (d2.key is Some) == (m.str_bytes(d1.key) is Some)
    &&& m.str_bytes(d2.key) == m.str_bytes(d1.key)
}

/// The tree `t2` is a copy of `t1`: every node copied and, when `rec`, the children copied
/// in order into a list of the store's shape.
pub open spec fn copy_of(m: StoreView, t2: Tree, t1: Tree, rec: bool) -> bool
    decreases t1,
{
    &&& node_copied(m, t2.id, t1.id)
    &&& if rec {
        &&& t2.kids.len() == t1.kids.len()
        &&& m.is_list(m.nodes[t2.id].child, tops(t2.kids))
        &&& forall|i: int| 0 <= i < t1.kids.len() ==> copy_of(m, t2.kids[i], #[trigger] t1.kids[i], true)
    } else {
        &&& t2.kids.len() == 0
        &&& m.nodes[t2.id].child is None
    }
}

/// `after` is `before` with the fresh tree `t2` added: every node and string of `before` as it was.
pub open spec fn dup_grown(before: StoreView, after: StoreView, t2: Tree) -> bool {
    &&& forall|id: NodeId| #[trigger] tree_ids(t2).contains(id) ==> !before.live(id)
    &&& tree_ids(t2).no_duplicates()
    &&& after.nodes.dom() == before.nodes.dom() + tree_ids(t2).to_set()
    &&& forall|id: NodeId| #[trigger] before.live(id) ==> after.nodes[id] == before.nodes[id]
    &&& forall|s: StrId| #[trigger] before.strings.contains_key(s) ==> after.strings.contains_key(s) && after.strings[s] == before.strings[s]
    &&& after.fail_allocs == before.fail_allocs
    &&& after.str_slots >= before.str_slots
}

} // verus!

verus! {

/// The node data of `a` and `b` agree but for the `next` and `prev` links.
pub open spec fn same_but_links(a: NodeData, b: NodeData) -> bool {
    b == (NodeData { next: b.next, prev: b.prev, ..a })
}

/// Ids below the `i`-th child of a tree are ids of the tree, and of its forest of children.
pub proof fn lemma_subtree_ids(t: Tree, i: int)
    requires
        0 <= i < t.kids.len(),
    ensures
        forall|id: NodeId| #[trigger] tree_ids(t.kids[i]).contains(id) ==> tree_ids(t).contains(id),
        forall|id: NodeId| #[trigger] forest_ids(t.kids[i].kids).contains(id) ==> forest_ids(t.kids).contains(id),
        forest_ids(t.kids).contains(t.kids[i].id),
        tree_ids(t.kids[i]).contains(t.kids[i].id),
{
    crate::tree::lemma_kids_in_ids(t.kids, i);
    assert(tree_ids(t) == seq![t.id] + forest_ids(t.kids));
    assert forall|id: NodeId| #[trigger] tree_ids(t.kids[i]).contains(id) implies tree_ids(t).contains(id) by {
        assert(forest_ids(t.kids).contains(id));
        let j = choose|j: int| 0 <= j < forest_ids(t.kids).len() && forest_ids(t.kids)[j] == id;
        assert(tree_ids(t)[j + 1] == id);
    }
    let k = t.kids[i];
    assert(tree_ids(k) == seq![k.id] + forest_ids(k.kids));
    assert forall|id: NodeId| #[trigger] forest_ids(k.kids).contains(id) implies forest_ids(t.kids).contains(id) by {
        let j = choose|j: int| 0 <= j < forest_ids(k.kids).len() && forest_ids(k.kids)[j] == id;
        assert(tree_ids(k)[j + 1] == id);
        assert(tree_ids(k).contains(id));
    }
    assert(tree_ids(k)[0] == k.id);
    assert(tree_ids(k).contains(k.id));
}

/// A copy stays a copy in a store that keeps the strings, every node of the original, the
/// nodes below the copy, and the copy's root but for its `next` and `prev`.
#[verifier::spinoff_prover]
#[verifier::rlimit(40)]
pub proof fn lemma_copy_frame(m1: StoreView, m2: StoreView, t2: Tree, t1: Tree, rec: bool)
    requires
        copy_of(m1, t2, t1, rec),
        strs_live(m1, t1),
        forall|id: NodeId| #[trigger] tree_ids(t1).contains(id) ==> m2.live(id) && m2.nodes[id] == m1.nodes[id],
        forall|id: NodeId| #[trigger] forest_ids(t2.kids).contains(id) ==> m2.live(id) && m2.nodes[id] == m1.nodes[id],
        m2.live(t2.id),
        same_but_links(m1.nodes[t2.id], m2.nodes[t2.id]),
        forall|s: StrId| #[trigger] m1.strings.contains_key(s) ==> m2.strings.contains_key(s) && m2.strings[s] == m1.strings[s],
    ensures
        copy_of(m2, t2, t1, rec),
    decreases t1, 1nat,
{
    assert(tree_ids(t1)[0] == t1.id);
    assert(tree_ids(t1).contains(t1.id));
    assert(handles_live(m1, t1.id));
    assert(node_copied(m2, t2.id, t1.id));
    if rec {
        let ts = t2.kids;
        assert forall|i: int| 0 <= i < tops(ts).len() implies m2.live(#[trigger] tops(ts)[i]) && m2.nodes[tops(ts)[i]] == m1.nodes[tops(ts)[i]] by {
            crate::tree::lemma_tops_in_ids(ts);
            assert(tops(ts)[i] == ts[i].id);
        }
        assert(m2.is_list(m2.nodes[t2.id].child, tops(ts)));
        assert forall|i: int| 0 <= i < t1.kids.len() implies copy_of(m2, t2.kids[i], #[trigger] t1.kids[i], true) by {
            lemma_copy_frame_kid(m1, m2, t2, t1, i);
        }
    }
}

proof fn lemma_copy_frame_kid(m1: StoreView, m2: StoreView, t2: Tree, t1: Tree, i: int)
    requires
        copy_of(m1, t2, t1, true),
        0 <= i < t1.kids.len(),
        strs_live(m1, t1),
        forall|id: NodeId| #[trigger] tree_ids(t1).contains(id) ==> m2.live(id) && m2.nodes[id] == m1.nodes[id],
        forall|id: NodeId| #[trigger] forest_ids(t2.kids).contains(id) ==> m2.live(id) && m2.nodes[id] == m1.nodes[id],
        forall|s: StrId| #[trigger] m1.strings.contains_key(s) ==> m2.strings.contains_key(s) && m2.strings[s] == m1.strings[s],
    ensures
        copy_of(m2, t2.kids[i], t1.kids[i], true),
    decreases t1, 0nat,
{
    assert(copy_of(m1, t2.kids[i], t1.kids[i], true));
    lemma_subtree_ids(t1, i);
    lemma_subtree_ids(t2, i);
    lemma_copy_frame(m1, m2, t2.kids[i], t1.kids[i], true);
}
} // verus!

verus! {

fn depth_check(store: &SafeStore, item: NodeId, depth: usize, Ghost(t): Ghost<Tree>) -> (r: bool)
    requires
        tree_ready(store@, t),
        t.id == item,
        depth <= CIRCULAR_DEPTH,
    ensures
        r == depth_ok(t, depth as nat),
    decreases tsz(t),
{
    let ghost m = store@;
    proof { crate::utils::lemma_tree_children_pub(m, t); }
    let mut c = store.child(item);
    if c.is_none() {
        return true;
    }
    if depth >= CIRCULAR_DEPTH {
        return false;
    }
    let ghost mut k: int = 0;
    while c.is_some()
        invariant
            m == store@,
            tree_ready(m, t),
            depth < CIRCULAR_DEPTH,
            0 <= k <= t.kids.len(),
            forall|i: int| 0 <= i < t.kids.len() ==> tree_ready(m, #[trigger] t.kids[i]),
            m.children(t.id) == tops(t.kids),
            c == (if k < t.kids.len() { Some(t.kids[k].id) } else { None::<NodeId> }),
            forall|i: int| 0 <= i < k ==> depth_ok(#[trigger] t.kids[i], (depth + 1) as nat),
        decreases t.kids.len() - k,
    {
        let ch = c.unwrap();
        proof {
            crate::compare::lemma_kid_smaller(t, k);
            crate::utils::lemma_chain_step(m, m.nodes[t.id].child, k);
            assert(tops(t.kids)[k] == ch);
            if k + 1 < t.kids.len() {
                assert(tops(t.kids)[k + 1] == t.kids[k + 1].id);
            }
        }
        if !depth_check(store, ch, depth + 1, Ghost(t.kids[k])) {
            return false;
        }
        c = store.next(ch);
        proof { k = k + 1; }
    }
    true
}

} // verus!

verus! {

/// `m` keeps every node and string of `mx`.
pub open spec fn keeps(mx: StoreView, m: StoreView) -> bool {
    &&& forall|id: NodeId| #[trigger] mx.live(id) ==> m.live(id) && m.nodes[id] == mx.nodes[id]
    &&& forall|s: StrId| #[trigger] mx.strings.contains_key(s) ==> m.strings.contains_key(s) && m.strings[s] == mx.strings[s]
}

/// A tree of `mx` is as ready, with live strings, in a store that keeps `mx`.
proof fn lemma_orig_frame(mx: StoreView, m: StoreView, t: Tree)
    requires
        tree_ready(mx, t),
        strs_live(mx, t),
        keeps(mx, m),
        m.slots_ok(),
    ensures
        tree_ready(m, t),
        strs_live(m, t),
        forall|id: NodeId| #[trigger] tree_ids(t).contains(id) ==> mx.live(id),
{
    assert forall|id: NodeId| #[trigger] tree_ids(t).contains(id) implies mx.live(id) by {
        crate::utils::lemma_tree_ids_live(mx, t, id);
    }
    assert(mx.agrees_on(m, tree_ids(t).to_set()));
    crate::tree::lemma_tree_frame(mx, m, t, false);
    assert forall|id: NodeId| #[trigger] tree_ids(t).contains(id) implies m.str_ok(m.nodes[id].valuestring) && m.str_ok(m.nodes[id].key) by {
        assert(mx.str_ok(mx.nodes[id].valuestring));
        assert(mx.str_ok(mx.nodes[id].key));
        assert(handles_live(mx, id));
    }
    assert forall|id: NodeId| #[trigger] tree_ids(t).contains(id) implies handles_live(m, id) by {
        assert(handles_live(mx, id));
    }
}

/// Copy the fields of `item` onto a fresh node.
fn copy_node(store: &mut SafeStore, item: NodeId) -> (r: NodeId)
    requires
        old(store)@.live(item),
        !old(store)@.fail_allocs,
        handles_live(old(store)@, item),
    ensures
        !old(store)@.live(r),
        final(store)@.nodes.dom() == old(store)@.nodes.dom().insert(r),
        keeps(old(store)@, final(store)@),
        final(store)@.fail_allocs == old(store)@.fail_allocs,
        node_copied(final(store)@, r, item),
        final(store)@.nodes[r].child is None,
        final(store)@.nodes[r].next is None,
        final(store)@.nodes[r].prev is None,
        final(store)@.nodes[r].key matches Some(k) ==> !old(store)@.strings.contains_key(k)
            && final(store)@.nodes[r].valuestring != Some(k),
        final(store)@.str_slots >= old(store)@.str_slots,
{
    let ghost m0 = store@;
    let n = match store.alloc_node() {
        Some(n) => n,
        None => {
            proof { assert(false); }
            return item;
        },
    };
    let ty = store.ty(item);
    store.set_ty(n, ty & !IS_REFERENCE);
    let vi = store.valueint(item);
    store.set_valueint(n, vi);
    let vd = store.valuedouble(item);
    store.set_valuedouble(n, vd);
    proof {
        store.lemma_slots_ok();
        assert(store@.nodes[item] == m0.nodes[item]);
        assert(store@.strings == m0.strings);
    }
    let vs: Option<Vec<u8>> = match store.valuestring_bytes(item) {
        Some(b) => Some(vstd::slice::slice_to_vec(b)),
        None => None,
    };
    match vs {
        Some(v) => {
            match store.alloc_str(v.as_slice()) {
                Some(sid) => store.set_valuestring_id(n, Some(sid)),
                None => { proof { assert(false); } },
            }
        },
        None => {},
    }
    let ghost m2 = store@;
    proof {
        store.lemma_slots_ok();
        assert(store@.nodes[item] == m0.nodes[item]);
        assert(m0.nodes[item].key matches Some(s) ==> store@.strings.contains_key(s));
    }
    let ks: Option<Vec<u8>> = match store.key_bytes(item) {
        Some(b) => Some(vstd::slice::slice_to_vec(b)),
        None => None,
    };
    match ks {
        Some(v) => {
            let got = if crate::types::string_is_const(ty) { store.borrow_str(v.as_slice()) } else { store.alloc_str(v.as_slice()) };
            match got {
                Some(sid) => store.set_key_id(n, Some(sid)),
                None => { proof { assert(false); } },
            }
        },
        None => {},
    }
    proof {
        assert(store@.nodes.dom() =~= m0.nodes.dom().insert(n));
    }
    n
}

} // verus!

verus! {

/// The invariant of the loop that copies the children of `t1` below the fresh node `n`
/// (whose store was `m1` right after it was made).
pub open spec fn dup_inv(m1: StoreView, m: StoreView, n: NodeId, t1: Tree, ts2: Seq<Tree>) -> bool {
    &&& ts2.len() <= t1.kids.len()
    &&& m.nodes[n] == (if ts2.len() == 0 { m1.nodes[n] } else { NodeData { child: Some(ts2[0].id), ..m1.nodes[n] } })
    &&& partial_list(m, ts2)
    &&& forall|j: int| 0 <= j < ts2.len() ==> copy_of(m, ts2[j], #[trigger] t1.kids[j], true)
    &&& forest_ids(ts2).no_duplicates()
    &&& forall|id: NodeId| #[trigger] forest_ids(ts2).contains(id) ==> !m1.live(id)
    &&& m.nodes.dom() == m1.nodes.dom() + forest_ids(ts2).to_set()
    &&& forall|id: NodeId| #[trigger] m1.live(id) && id != n ==> m.nodes[id] == m1.nodes[id]
    &&& forall|s: StrId| #[trigger] m1.strings.contains_key(s) ==> m.strings.contains_key(s) && m.strings[s] == m1.strings[s]
    &&& m.fail_allocs == m1.fail_allocs
    &&& m.str_slots >= m1.str_slots
}

proof fn lemma_dup_inv_start(m1: StoreView, n: NodeId, t1: Tree)
    requires
        m1.live(n),
    ensures
        dup_inv(m1, m1, n, t1, seq![]),
{
    let ts: Seq<Tree> = seq![];
    assert(tops(ts) =~= Seq::<NodeId>::empty());
    assert(forest_ids(ts) =~= Seq::<NodeId>::empty());
    assert(m1.nodes.dom() =~= m1.nodes.dom() + forest_ids(ts).to_set());
}

/// The store after linking the copy `tc` after the list `ts2` below `n`.
pub open spec fn linked_copy(mb: StoreView, n: NodeId, ts2: Seq<Tree>, tc: Tree) -> StoreView {
    if ts2.len() > 0 {
        let m = mb.with_node(ts2.last().id, NodeData { next: Some(tc.id), ..mb.nodes[ts2.last().id] });
        m.with_node(tc.id, NodeData { prev: Some(ts2.last().id), ..m.nodes[tc.id] })
    } else {
        mb.with_node(n, NodeData { child: Some(tc.id), ..mb.nodes[n] })
    }
}

/// The facts of one step of the copy loop, before the new child is linked.
pub open spec fn step_pre(m0: StoreView, m1: StoreView, ma: StoreView, mb: StoreView, n: NodeId, t1: Tree, ts2: Seq<Tree>, tc: Tree) -> bool {
    &&& dup_inv(m1, ma, n, t1, ts2)
    &&& ts2.len() < t1.kids.len()
    &&& !m0.live(n)
    &&& m1.nodes.dom() == m0.nodes.dom().insert(n)
    &&& keeps(m0, m1)
    &&& tree_ready(m0, t1)
    &&& strs_live(m0, t1)
    &&& copy_of(mb, tc, t1.kids[ts2.len() as int], true)
    &&& dup_grown(ma, mb, tc)
    &&& mb.nodes[tc.id].next is None
    &&& mb.nodes[tc.id].prev is None
    &&& mb.slots_ok()
    &&& ma.slots_ok()
}

/// Which nodes the link step touches: the last copied child, the new one, or `n`.
proof fn lemma_step_touch(m0: StoreView, m1: StoreView, ma: StoreView, mb: StoreView, n: NodeId, t1: Tree, ts2: Seq<Tree>, tc: Tree)
    requires
        step_pre(m0, m1, ma, mb, n, t1, ts2, tc),
    ensures
        forall|id: NodeId| #[trigger] tree_ids(tc).contains(id) ==> !ma.live(id),
        !ma.live(tc.id),
        keeps(m0, ma),
        ma.live(n),
        !forest_ids(ts2).contains(n),
        forall|id: NodeId| #[trigger] forest_ids(ts2).contains(id) ==> ma.live(id) && !m1.live(id),
        ts2.len() > 0 ==> forest_ids(ts2).contains(ts2.last().id),
        ts2.len() > 0 ==> ts2.last().id != n && ts2.last().id != tc.id,
        tc.id != n,
        keeps(ma, mb),
        keeps(m0, mb),
        keeps(m0, linked_copy(mb, n, ts2, tc)),
        linked_copy(mb, n, ts2, tc).nodes.dom() == mb.nodes.dom(),
        linked_copy(mb, n, ts2, tc).strings == mb.strings,
        linked_copy(mb, n, ts2, tc).fail_allocs == mb.fail_allocs,
{
    let mc = linked_copy(mb, n, ts2, tc);
    assert(m1.live(n));
    assert(ma.live(n));
    assert(tree_ids(tc)[0] == tc.id);
    assert(tree_ids(tc).contains(tc.id));
    assert forall|id: NodeId| #[trigger] forest_ids(ts2).contains(id) implies ma.live(id) && !m1.live(id) by {
        assert(forest_ids(ts2).to_set().contains(id));
    }
    if ts2.len() > 0 {
        crate::tree::lemma_tops_in_ids(ts2);
        assert(ts2.last() == ts2[ts2.len() - 1]);
        assert(forest_ids(ts2).contains(ts2.last().id));
    }
    assert(keeps(ma, mb));
    assert forall|id: NodeId| #[trigger] m0.live(id) implies ma.live(id) && ma.nodes[id] == m0.nodes[id] by {
        assert(m1.live(id));
        assert(id != n);
    }
    assert forall|id: NodeId| #[trigger] m0.live(id) implies mb.live(id) && mb.nodes[id] == m0.nodes[id] by {
        assert(m1.live(id));
        assert(id != n);
        assert(ma.live(id));
    }
    assert forall|id: NodeId| #[trigger] m0.live(id) implies mc.live(id) && mc.nodes[id] == m0.nodes[id] by {
        assert(m1.live(id));
        assert(id != n);
        assert(ma.live(id));
        assert(mb.live(id));
        assert(id != tc.id);
        if ts2.len() > 0 {
            assert(id != ts2.last().id);
        }
    }
    assert(mc.nodes.dom() =~= mb.nodes.dom());
}

/// The list with the new copy linked at its end.
proof fn lemma_step_list(m0: StoreView, m1: StoreView, ma: StoreView, mb: StoreView, n: NodeId, t1: Tree, ts2: Seq<Tree>, tc: Tree)
    requires
        step_pre(m0, m1, ma, mb, n, t1, ts2, tc),
    ensures
        partial_list(linked_copy(mb, n, ts2, tc), ts2.push(tc)),
        linked_copy(mb, n, ts2, tc).nodes[n] == (NodeData { child: Some(ts2.push(tc)[0].id), ..m1.nodes[n] }),
{
    lemma_step_touch(m0, m1, ma, mb, n, t1, ts2, tc);
    let mc = linked_copy(mb, n, ts2, tc);
    let ts3 = ts2.push(tc);
    let s = tops(ts2);
    let s3 = tops(ts3);
    assert(s3 =~= s.push(tc.id));
    assert forall|i: int| 0 <= i < s.len() implies ma.live(#[trigger] s[i]) && s[i] != tc.id && s[i] != n by {
        crate::tree::lemma_tops_in_ids(ts2);
        assert(s[i] == ts2[i].id);
        assert(forest_ids(ts2).contains(ts2[i].id));
    }
    assert forall|i: int| 0 <= i < s3.len() implies mc.live(#[trigger] s3[i]) by {
        if i < s.len() { assert(s3[i] == s[i]); assert(mb.live(s[i])); }
    }
    assert forall|i: int| 0 <= i < s3.len() - 1 implies mc.nodes[#[trigger] s3[i]].next == Some(s3[i + 1]) by {
        assert(s3[i] == s[i]);
        if i < s.len() - 1 {
            assert(s[i] != s.last()) by { assert(s.no_duplicates()); assert(s[s.len() - 1] == s.last()); }
            assert(s[i] != ts2.last().id) by { assert(ts2.last().id == s[s.len() - 1]); }
            assert(mb.nodes[s[i]] == ma.nodes[s[i]]);
        } else {
            assert(s[i] == ts2.last().id);
        }
    }
    assert forall|i: int| 0 < i < ts3.len() implies mc.nodes[#[trigger] ts3[i].id].prev == Some(ts3[i - 1].id) by {
        if i < ts2.len() {
            assert(ts3[i] == ts2[i]);
            assert(ts3[i - 1] == ts2[i - 1]);
            assert(s[i] == ts2[i].id);
            assert(mb.nodes[s[i]] == ma.nodes[s[i]]);
        }
    }
    assert(s3.no_duplicates()) by {
        assert forall|x: int, y: int| 0 <= x < y < s3.len() implies s3[x] != s3[y] by {
            if y == s.len() { assert(s3[x] == s[x]); }
            else { assert(s3[x] == s[x]); assert(s3[y] == s[y]); }
        }
    }
    if ts2.len() > 0 {
        assert(s3[0] == s[0]);
        assert(ts3[0] == ts2[0]);
    } else {
        assert(s3 =~= seq![tc.id]);
    }
}

/// Every copy of the list stays a copy once the new one is linked.
proof fn lemma_step_copies(m0: StoreView, m1: StoreView, ma: StoreView, mb: StoreView, n: NodeId, t1: Tree, ts2: Seq<Tree>, tc: Tree)
    requires
        step_pre(m0, m1, ma, mb, n, t1, ts2, tc),
    ensures
        forall|j: int| 0 <= j < ts2.push(tc).len() ==> copy_of(linked_copy(mb, n, ts2, tc), ts2.push(tc)[j], #[trigger] t1.kids[j], true),
{
    lemma_step_touch(m0, m1, ma, mb, n, t1, ts2, tc);
    let mc = linked_copy(mb, n, ts2, tc);
    let ts3 = ts2.push(tc);
    let k = ts2.len() as int;
    crate::utils::lemma_tree_children_pub(m0, t1);
    assert forall|j: int| 0 <= j < ts3.len() implies copy_of(mc, ts3[j], #[trigger] t1.kids[j], true) by {
        lemma_subtree_ids(t1, j);
        lemma_orig_frame(m0, ma, t1);
        assert(strs_live(ma, t1.kids[j])) by {
            assert forall|id: NodeId| #[trigger] tree_ids(t1.kids[j]).contains(id) implies handles_live(ma, id) by {
                assert(tree_ids(t1).contains(id));
            }
        }
        assert forall|id: NodeId| #[trigger] tree_ids(t1.kids[j]).contains(id) implies mc.live(id) && mc.nodes[id] == ma.nodes[id] by {
            assert(tree_ids(t1).contains(id));
            lemma_orig_frame(m0, mb, t1);
            assert(m0.live(id));
        }
        if j < k {
            assert(ts3[j] == ts2[j]);
            crate::tree::lemma_kid_not_top(ts2, j);
            lemma_subtree_ids(Tree { id: n, kids: ts2 }, j);
            assert forall|id: NodeId| #[trigger] forest_ids(ts2[j].kids).contains(id) implies mc.live(id) && mc.nodes[id] == ma.nodes[id] by {
                assert(forest_ids(ts2).contains(id));
                assert(ma.live(id));
                assert(id != tc.id);
                if k > 0 {
                    assert(ts2[k - 1].id != id);
                    assert(ts2.last() == ts2[k - 1]);
                }
            }
            assert(forest_ids(ts2).contains(ts2[j].id));
            assert(same_but_links(ma.nodes[ts2[j].id], mc.nodes[ts2[j].id]));
            lemma_copy_frame(ma, mc, ts2[j], t1.kids[j], true);
        } else {
            assert(ts3[j] == tc);
            assert(tree_ids(tc) == seq![tc.id] + forest_ids(tc.kids));
            assert forall|id: NodeId| #[trigger] forest_ids(tc.kids).contains(id) implies mc.live(id) && mc.nodes[id] == mb.nodes[id] by {
                let q = choose|q: int| 0 <= q < forest_ids(tc.kids).len() && forest_ids(tc.kids)[q] == id;
                assert(tree_ids(tc)[q + 1] == id);
                assert(tree_ids(tc).contains(id));
                assert(tree_ids(tc).no_duplicates());
                assert(id != tc.id) by { assert(tree_ids(tc)[0] == tc.id); }
                assert(!ma.live(id));
                assert(id != n);
                if k > 0 {
                    assert(forest_ids(ts2).contains(ts2.last().id));
                    assert(ma.live(ts2.last().id));
                }
            }
            assert forall|id: NodeId| #[trigger] tree_ids(t1.kids[j]).contains(id) implies mc.live(id) && mc.nodes[id] == mb.nodes[id] by {
                assert(tree_ids(t1).contains(id));
                lemma_orig_frame(m0, mb, t1);
                assert(m0.live(id));
            }
            assert(strs_live(mb, t1.kids[j])) by {
                lemma_orig_frame(m0, mb, t1);
                assert forall|id: NodeId| #[trigger] tree_ids(t1.kids[j]).contains(id) implies handles_live(mb, id) by {
                    assert(tree_ids(t1).contains(id));
                }
            }
            assert(same_but_links(mb.nodes[tc.id], mc.nodes[tc.id]));
            lemma_copy_frame(mb, mc, tc, t1.kids[j], true);
        }
    }
}

/// One more child copied and linked.
#[verifier::spinoff_prover]
#[verifier::rlimit(40)]
proof fn lemma_dup_step(m0: StoreView, m1: StoreView, ma: StoreView, mb: StoreView, n: NodeId, t1: Tree, ts2: Seq<Tree>, tc: Tree)
    requires
        step_pre(m0, m1, ma, mb, n, t1, ts2, tc),
    ensures
        dup_inv(m1, linked_copy(mb, n, ts2, tc), n, t1, ts2.push(tc)),
{
    lemma_step_touch(m0, m1, ma, mb, n, t1, ts2, tc);
    lemma_step_list(m0, m1, ma, mb, n, t1, ts2, tc);
    lemma_step_copies(m0, m1, ma, mb, n, t1, ts2, tc);
    let mc = linked_copy(mb, n, ts2, tc);
    let ts3 = ts2.push(tc);
    crate::parse::lemma_ids_push_pub(ts2, tc);
    assert(forest_ids(ts3).no_duplicates()) by {
        let f = forest_ids(ts2);
        let g = tree_ids(tc);
        assert forall|x: int, y: int| 0 <= x < y < forest_ids(ts3).len() implies forest_ids(ts3)[x] != forest_ids(ts3)[y] by {
            if x < f.len() && y >= f.len() {
                assert(forest_ids(ts3)[x] == f[x]);
                assert(forest_ids(ts3)[y] == g[y - f.len()]);
                assert(f.contains(f[x]));
                assert(g.contains(g[y - f.len()]));
            } else if x >= f.len() {
                assert(forest_ids(ts3)[x] == g[x - f.len()]);
                assert(forest_ids(ts3)[y] == g[y - f.len()]);
            } else {
                assert(forest_ids(ts3)[x] == f[x]);
                assert(forest_ids(ts3)[y] == f[y]);
            }
        }
    }
    assert forall|id: NodeId| #[trigger] forest_ids(ts3).contains(id) implies !m1.live(id) by {
        if tree_ids(tc).contains(id) {
            assert(!ma.live(id));
        }
    }
    assert(mc.nodes.dom() =~= m1.nodes.dom() + forest_ids(ts3).to_set());
    assert forall|id: NodeId| #[trigger] m1.live(id) && id != n implies mc.nodes[id] == m1.nodes[id] by {
        assert(ma.live(id));
        assert(!tree_ids(tc).contains(id));
        if ts2.len() > 0 {
            assert(id != ts2.last().id);
        }
    }
}

} // verus!

verus! {

/// The children are all copied: the first one's `prev` set to the last makes the copy.
#[verifier::spinoff_prover]
#[verifier::rlimit(40)]
proof fn lemma_dup_finish(m0: StoreView, m1: StoreView, m: StoreView, mf: StoreView, n: NodeId, item: NodeId, t1: Tree, ts2: Seq<Tree>)
    requires
        dup_inv(m1, m, n, t1, ts2),
        ts2.len() == t1.kids.len(),
        !m0.live(n),
        m1.nodes.dom() == m0.nodes.dom().insert(n),
        keeps(m0, m1),
        m1.fail_allocs == m0.fail_allocs,
        m1.str_slots >= m0.str_slots,
        tree_ready(m0, t1),
        strs_live(m0, t1),
        t1.id == item,
        node_copied(m1, n, item),
        m1.nodes[n].child is None,
        m1.nodes[n].next is None,
        m1.nodes[n].prev is None,
        m.slots_ok(),
        ts2.len() > 0 ==> mf == m.with_node(ts2[0].id, NodeData { prev: Some(ts2.last().id), ..m.nodes[ts2[0].id] }),
        ts2.len() == 0 ==> mf == m,
    ensures
        copy_of(mf, Tree { id: n, kids: ts2 }, t1, true),
        dup_grown(m0, mf, Tree { id: n, kids: ts2 }),
        mf.nodes[n].next is None,
        mf.nodes[n].prev is None,
{
    let t2 = Tree { id: n, kids: ts2 };
    assert(m1.live(n));
    assert(!forest_ids(ts2).contains(n)) by {
        if forest_ids(ts2).contains(n) { assert(!m1.live(n)); }
    }
    assert(keeps(m0, m)) by {
        assert forall|id: NodeId| #[trigger] m0.live(id) implies m.live(id) && m.nodes[id] == m0.nodes[id] by {
            assert(m1.live(id));
        }
    }
    if ts2.len() > 0 {
        crate::tree::lemma_tops_in_ids(ts2);
        assert(forest_ids(ts2).contains(ts2[0].id));
        assert(ts2[0].id != n);
    }
    assert(keeps(m0, mf)) by {
        assert forall|id: NodeId| #[trigger] m0.live(id) implies mf.live(id) && mf.nodes[id] == m0.nodes[id] by {
            assert(m1.live(id));
            if ts2.len() > 0 {
                assert(id != ts2[0].id) by { assert(!m1.live(ts2[0].id)); }
            }
        }
    }
    lemma_orig_frame(m0, mf, t1);
    assert(mf.nodes[n] == m.nodes[n]);
    assert(node_copied(mf, n, item)) by {
        assert(tree_ids(t1)[0] == t1.id);
        assert(tree_ids(t1).contains(item));
        assert(handles_live(m0, item));
    }
    let s = tops(ts2);
    assert(mf.is_list(mf.nodes[n].child, s)) by {
        assert forall|i: int| 0 <= i < s.len() implies mf.live(#[trigger] s[i]) && mf.nodes[s[i]].next == m.nodes[s[i]].next by {}
        assert forall|i: int| 0 < i < s.len() implies mf.nodes[#[trigger] s[i]].prev == Some(s[i - 1]) by {
            assert(s[i] == ts2[i].id);
            assert(s[i - 1] == ts2[i - 1].id);
            assert(s[i] != s[0]) by { assert(s.no_duplicates()); }
        }
        if s.len() > 0 {
            assert(s[0] == ts2[0].id);
            assert(s.last() == ts2.last().id);
        }
    }
    crate::utils::lemma_tree_children_pub(m0, t1);
    assert forall|j: int| 0 <= j < t1.kids.len() implies copy_of(mf, ts2[j], #[trigger] t1.kids[j], true) by {
        lemma_subtree_ids(t1, j);
        crate::tree::lemma_kid_not_top(ts2, j);
        lemma_subtree_ids(t2, j);
        lemma_orig_frame(m0, m, t1);
        assert(strs_live(m, t1.kids[j])) by {
            assert forall|id: NodeId| #[trigger] tree_ids(t1.kids[j]).contains(id) implies handles_live(m, id) by {
                assert(tree_ids(t1).contains(id));
            }
        }
        assert forall|id: NodeId| #[trigger] tree_ids(t1.kids[j]).contains(id) implies mf.live(id) && mf.nodes[id] == m.nodes[id] by {
            assert(tree_ids(t1).contains(id));
            assert(m0.live(id));
        }
        assert forall|id: NodeId| #[trigger] forest_ids(ts2[j].kids).contains(id) implies mf.live(id) && mf.nodes[id] == m.nodes[id] by {
            assert(forest_ids(ts2).contains(id));
            if ts2.len() > 0 {
                assert(ts2[0].id != id);
            }
        }
        lemma_copy_frame(m, mf, ts2[j], t1.kids[j], true);
    }
    assert(copy_of(mf, t2, t1, true));
    assert(tree_ids(t2) == seq![n] + forest_ids(ts2));
    crate::tree::lemma_concat_to_set(seq![n], forest_ids(ts2));
    crate::parse::lemma_single_to_set_pub(n);
    assert(tree_ids(t2).no_duplicates()) by {
        assert forall|x: int, y: int| 0 <= x < y < tree_ids(t2).len() implies tree_ids(t2)[x] != tree_ids(t2)[y] by {
            if x == 0 {
                assert(tree_ids(t2)[y] == forest_ids(ts2)[y - 1]);
                assert(forest_ids(ts2).contains(forest_ids(ts2)[y - 1]));
            } else {
                assert(tree_ids(t2)[x] == forest_ids(ts2)[x - 1]);
                assert(tree_ids(t2)[y] == forest_ids(ts2)[y - 1]);
            }
        }
    }
    assert forall|id: NodeId| #[trigger] tree_ids(t2).contains(id) implies !m0.live(id) by {
        if id != n {
            let q = choose|q: int| 0 <= q < tree_ids(t2).len() && tree_ids(t2)[q] == id;
            assert(forest_ids(ts2)[q - 1] == id);
            assert(forest_ids(ts2).contains(id));
            assert(!m1.live(id));
        }
    }
    assert(mf.nodes.dom() =~= m0.nodes.dom() + tree_ids(t2).to_set());
}

/// Copy the tree `t1` below `item` (all of it when `recurse`, else only `item`), when
/// allocation cannot fail and the copy is not too deep.
fn copy_rec(store: &mut SafeStore, item: NodeId, recurse: bool, Ghost(t1): Ghost<Tree>) -> (r: (NodeId, Ghost<Tree>))
    requires
        !old(store)@.fail_allocs,
        old(store)@.live(item),
        t1.id == item,
        recurse ==> tree_ready(old(store)@, t1),
        !recurse ==> t1.kids.len() == 0,
        strs_live(old(store)@, t1),
    ensures
        r.1@.id == r.0,
        copy_of(final(store)@, r.1@, t1, recurse),
        dup_grown(old(store)@, final(store)@, r.1@),
        final(store)@.nodes[r.0].next is None,
        final(store)@.nodes[r.0].prev is None,
        final(store)@.nodes[r.0].key matches Some(k) ==> !old(store)@.strings.contains_key(k)
            && final(store)@.nodes[r.0].valuestring != Some(k),
    decreases tsz(t1),
{
    let ghost m0 = store@;
    proof {
        assert(tree_ids(t1)[0] == t1.id);
        assert(tree_ids(t1).contains(item));
        assert(handles_live(m0, item));
    }
    let n = copy_node(store, item);
    let ghost m1 = store@;
    proof { store.lemma_slots_ok(); }
    if !recurse {
        let ghost t2 = Tree { id: n, kids: seq![] };
        proof {
            assert(tree_ids(t2) =~= seq![n]);
            crate::parse::lemma_single_to_set_pub(n);
            assert(m1.nodes.dom() =~= m0.nodes.dom() + tree_ids(t2).to_set());
            assert(tops(t2.kids) =~= Seq::<NodeId>::empty());
        }
        return (n, Ghost(t2));
    }
    proof {
        lemma_dup_inv_start(m1, n, t1);
        lemma_orig_frame(m0, m1, t1);
        crate::utils::lemma_tree_children_pub(m0, t1);
    }
    let mut child = store.child(item);
    let mut last: Option<NodeId> = None;
    let ghost mut ts2: Seq<Tree> = seq![];
    while child.is_some()
        invariant
            m0 == old(store)@,
            !m0.fail_allocs,
            t1.id == item,
            tree_ready(m0, t1),
            strs_live(m0, t1),
            m0.children(t1.id) == tops(t1.kids),
            forall|i: int| 0 <= i < t1.kids.len() ==> tree_ready(m0, #[trigger] t1.kids[i]),
            !m0.live(n),
            m1.nodes.dom() == m0.nodes.dom().insert(n),
            keeps(m0, m1),
            m1.fail_allocs == m0.fail_allocs,
            node_copied(m1, n, item),
            m1.nodes[n].child is None,
            m1.nodes[n].next is None,
            m1.nodes[n].prev is None,
            dup_inv(m1, store@, n, t1, ts2),
            child == (if ts2.len() < t1.kids.len() { Some(t1.kids[ts2.len() as int].id) } else { None::<NodeId> }),
            last == (if ts2.len() == 0 { None::<NodeId> } else { Some(ts2.last().id) }),
        decreases t1.kids.len() - ts2.len(),
    {
        let c = child.unwrap();
        let ghost k = ts2.len() as int;
        let ghost ma = store@;
        proof {
            store.lemma_slots_ok();
            crate::compare::lemma_kid_smaller(t1, k);
            lemma_subtree_ids(t1, k);
            assert(keeps(m0, ma)) by {
                assert forall|id: NodeId| #[trigger] m0.live(id) implies ma.live(id) && ma.nodes[id] == m0.nodes[id] by {
                    assert(m1.live(id));
                }
            }
            lemma_orig_frame(m0, ma, t1);
            crate::utils::lemma_tree_children_pub(ma, t1);
            assert(strs_live(ma, t1.kids[k])) by {
                assert forall|id: NodeId| #[trigger] tree_ids(t1.kids[k]).contains(id) implies handles_live(ma, id) by {
                    assert(tree_ids(t1).contains(id));
                }
            }
            assert(ma.live(c)) by {
                assert(tree_ids(t1).contains(c));
            }
        }
        let (nc, Ghost(tc)) = copy_rec(store, c, true, Ghost(t1.kids[k]));
        let ghost mb = store@;
        proof {
            store.lemma_slots_ok();
            lemma_step_touch(m0, m1, ma, mb, n, t1, ts2, tc);
        }
        match last {
            Some(p) => {
                store.set_next(p, Some(nc));
                store.set_prev(nc, Some(p));
            },
            None => {
                store.set_child(n, Some(nc));
            },
        }
        proof {
            assert(store@ == linked_copy(mb, n, ts2, tc));
            lemma_dup_step(m0, m1, ma, mb, n, t1, ts2, tc);
        }
        last = Some(nc);
        proof {
            crate::utils::lemma_chain_step(m0, m0.nodes[t1.id].child, k);
            assert(m0.nodes[c].next == store@.nodes[c].next) by {
                assert(tree_ids(t1).contains(c));
                lemma_step_touch(m0, m1, ma, mb, n, t1, ts2, tc);
            }
        }
        child = store.next(c);
        proof {
            ts2 = ts2.push(tc);
            if k + 1 < t1.kids.len() {
                assert(tops(t1.kids)[k + 1] == t1.kids[k + 1].id);
            }
            assert(tops(t1.kids)[k] == c);
        }
    }
    let ghost m = store@;
    proof { store.lemma_slots_ok(); }
    match last {
        Some(l) => {
            let h = store.child(n).unwrap();
            store.set_prev(h, Some(l));
        },
        None => {},
    }
    proof {
        store.lemma_slots_ok();
        lemma_dup_finish(m0, m1, m, store@, n, item, t1, ts2);
    }
    (n, Ghost(Tree { id: n, kids: ts2 }))
}

} // verus!

verus! {

/// The tree that a copy of `item` reads: all of it when `recurse`, else the node alone.
pub open spec fn dup_source(m: StoreView, item: NodeId, recurse: bool) -> Tree {
    if recurse { m.tree_of(item, false) } else { Tree { id: item, kids: seq![] } }
}

/// What a copy of `item` needs: a finite tree below it (when `recurse`) whose string
/// handles are absent or live.
pub open spec fn dup_ready(m: StoreView, item: NodeId, recurse: bool) -> bool {
    &&& m.live(item)
    &&& recurse ==> m.has_tree(item, false) && crate::print::strs_ok(m, m.tree_of(item, false))
    &&& strs_live(m, dup_source(m, item, recurse))
}

/// The result of a successful copy: the fresh tree `t2` below `n` copies the source.
pub open spec fn duplicated(before: StoreView, after: StoreView, n: NodeId, t2: Tree, item: NodeId, recurse: bool) -> bool {
    &&& t2.id == n
    &&& copy_of(after, t2, dup_source(before, item, recurse), recurse)
    &&& dup_grown(before, after, t2)
    &&& after.nodes[n].next is None
    &&& after.nodes[n].prev is None
    &&& after.nodes[n].key matches Some(k) ==> !before.strings.contains_key(k) && after.nodes[n].valuestring != Some(k)
}

/// Some fresh tree below `n` is a copy of the source of `item` (see `duplicated`).
pub open spec fn dup_done(before: StoreView, after: StoreView, n: NodeId, item: NodeId, recurse: bool) -> bool {
    exists|t2: Tree| #[trigger] duplicated(before, after, n, t2, item, recurse)
}

/// A detached copy of `item` (and, when `recurse`, of everything
/// below it). `None`, with the store as it was, when allocation fails or a node at depth
/// `CIRCULAR_DEPTH` has children.
pub fn duplicate(store: &mut SafeStore, item: NodeId, recurse: bool) -> (r: Option<NodeId>)
    requires
        dup_ready(old(store)@, item, recurse),
    ensures
        r is None <==> (old(store)@.fail_allocs || (recurse && !depth_ok(dup_source(old(store)@, item, recurse), 0))),
        r is None ==> final(store)@ == old(store)@,
        r is Some ==> dup_done(old(store)@, final(store)@, r.unwrap(), item, recurse),
{
    let ghost m0 = store@;
    let ghost t1 = dup_source(m0, item, recurse);
    if store.allocs_fail() {
        return None;
    }
    if recurse {
        if !depth_check(store, item, 0, Ghost(t1)) {
            return None;
        }
    }
    let (n, Ghost(t2)) = copy_rec(store, item, recurse, Ghost(t1));
    proof {
        assert(duplicated(old(store)@, store@, n, t2, item, recurse));
        assert(dup_done(old(store)@, store@, n, item, recurse));
    }
    Some(n)
}

} // verus!
