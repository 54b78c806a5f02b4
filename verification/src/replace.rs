//! Replacing a child in place: the replacement takes the links of the node it replaces,
//! which is then deleted.
use vstd::prelude::*;
use crate::store::{NodeId, StrId, SafeStore, NodeData, StoreView};
use crate::tree::{Tree, tree_ids, forest_ids, tops};
use crate::types::{spec_string_is_const, STRING_IS_CONST};
use crate::dom::{listed, keyed_walkable, object_lookup, first_stop, lemma_first_stop, get_object_item};

verus! {

/// What putting `rep` in the place of `item` among the children of `parent` does to the
/// links, `item` left without neighbours.
pub open spec fn swapped_in(m: StoreView, parent: NodeId, item: NodeId, rep: NodeId) -> StoreView {
    let m0 = m.with_node(rep, NodeData { next: m.nodes[item].next, ..m.nodes[rep] });
    let m1 = m0.with_node(rep, NodeData { prev: m0.nodes[item].prev, ..m0.nodes[rep] });
    let m2 = match m1.nodes[rep].next {
        Some(nx) => m1.with_node(nx, NodeData { prev: Some(rep), ..m1.nodes[nx] }),
        None => m1,
    };
    let m3 = if m2.nodes[parent].child == Some(item) {
        let m3a = if m2.nodes[item].prev == Some(item) {
            m2.with_node(rep, NodeData { prev: Some(rep), ..m2.nodes[rep] })
        } else {
            m2
        };
        m3a.with_node(parent, NodeData { child: Some(rep), ..m3a.nodes[parent] })
    } else {
        let m3a = match m2.nodes[rep].prev {
            Some(p) => m2.with_node(p, NodeData { next: Some(rep), ..m2.nodes[p] }),
            None => m2,
        };
        if m3a.nodes[rep].next is None {
            match m3a.nodes[parent].child {
                Some(c) => m3a.with_node(c, NodeData { prev: Some(rep), ..m3a.nodes[c] }),
                None => m3a,
            }
        } else {
            m3a
        }
    };
    let m4 = m3.with_node(item, NodeData { next: None, ..m3.nodes[item] });
    m4.with_node(item, NodeData { prev: None, ..m4.nodes[item] })
}

/// The tree owned by `id` is finite and reaches no node twice.
pub open spec fn owned_tree(m: StoreView, id: NodeId) -> bool {
    m.has_tree(id, true) && tree_ids(m.tree_of(id, true)).no_duplicates()
}

/// `rep` can take the place of the child `item` of `parent`: the children form a list,
/// `rep` is a live node outside it, and the tree `item` owns holds none of the other nodes
/// that the swap touches.
pub open spec fn replace_ok(m: StoreView, parent: NodeId, item: NodeId, rep: NodeId) -> bool {
    let s = m.children(parent);
    let ids = tree_ids(m.tree_of(item, true));
    &&& listed(m, parent)
    &&& s.contains(item)
    &&& m.live(rep)
    &&& !s.contains(rep)
    &&& rep != parent
    &&& !s.contains(parent)
    &&& owned_tree(m, item)
    &&& !ids.contains(parent)
    &&& !ids.contains(rep)
    &&& forall|j: int| 0 <= j < s.len() && s[j] != item ==> !ids.contains(#[trigger] s[j])
}

/// The swap gives the list with `rep` at the index of `item`.
#[verifier::spinoff_prover]
#[verifier::rlimit(60)]
proof fn lemma_swap_list(m: StoreView, parent: NodeId, s: Seq<NodeId>, i: int, rep: NodeId)
    requires
        m.live(parent),
        m.is_list(m.nodes[parent].child, s),
        0 <= i < s.len(),
        m.live(rep),
        !s.contains(rep),
        rep != parent,
        !s.contains(parent),
    ensures
        swapped_in(m, parent, s[i], rep).is_list(swapped_in(m, parent, s[i], rep).nodes[parent].child, s.update(i, rep)),
        swapped_in(m, parent, s[i], rep).nodes[s[i]].next is None,
        swapped_in(m, parent, s[i], rep).nodes.dom() == m.nodes.dom(),
        swapped_in(m, parent, s[i], rep).strings == m.strings,
        swapped_in(m, parent, s[i], rep).nodes[s[i]].child == m.nodes[s[i]].child,
        swapped_in(m, parent, s[i], rep).nodes[s[i]].ty == m.nodes[s[i]].ty,
        forall|x: NodeId| x != s[i] && x != rep && x != parent && !s.contains(x)
            ==> #[trigger] swapped_in(m, parent, s[i], rep).nodes[x] == m.nodes[x],
{
    let item = s[i];
    let n = s.len();
    let a = swapped_in(m, parent, item, rep);
    let s2 = s.update(i, rep);
    assert(s[n - 1] == s.last());
    assert(m.live(s[0]));
    assert(m.live(s.last()));
    if i > 0 {
        assert(m.nodes[item].prev == Some(s[i - 1]));
        assert(item != s[0]);
    } else {
        assert(m.nodes[item].prev == Some(s.last()));
    }
    if i + 1 < n {
        assert(m.nodes[item].next == Some(s[i + 1]));
        assert(m.live(s[i + 1]));
    }
    assert(a.nodes.dom() =~= m.nodes.dom());
    assert forall|j: int| 0 <= j < s2.len() implies a.live(#[trigger] s2[j]) by {
        if j != i { assert(s2[j] == s[j]); }
    }
    assert forall|j: int| 0 <= j < s2.len() - 1 implies a.nodes[#[trigger] s2[j]].next == Some(s2[j + 1]) by {
        if j == i {
            assert(s2[j + 1] == s[j + 1]);
        } else {
            assert(s2[j] == s[j]);
            assert(s[j] != item);
            if j + 1 == i { assert(s2[j + 1] == rep); } else { assert(s2[j + 1] == s[j + 1]); }
        }
    }
    assert forall|j: int| 0 < j < s2.len() implies a.nodes[#[trigger] s2[j]].prev == Some(s2[j - 1]) by {
        if j == i {
            assert(s2[j - 1] == s[j - 1]);
        } else {
            assert(s2[j] == s[j]);
            assert(s[j] != item);
            assert(s[j] != s[0]);
            if j - 1 == i { assert(s2[j - 1] == rep); } else { assert(s2[j - 1] == s[j - 1]); }
        }
    }
    assert(s2[0] == (if i == 0 { rep } else { s[0] }));
    assert(s2.last() == (if i == n - 1 { rep } else { s.last() }));
    assert(a.nodes[s2.last()].next is None);
    assert(s2.no_duplicates()) by {
        assert forall|x: int, y: int| 0 <= x < y < s2.len() implies s2[x] != s2[y] by {
            if x != i && y != i {
                assert(s2[x] == s[x]);
                assert(s2[y] == s[y]);
            } else if x == i {
                assert(s2[y] == s[y]);
            } else {
                assert(s2[x] == s[x]);
            }
        }
    }
    assert forall|x: NodeId| x != item && x != rep && x != parent && !s.contains(x)
        implies #[trigger] a.nodes[x] == m.nodes[x] by {
        if i > 0 {
            assert(s[i - 1] != x);
        }
        if i + 1 < n {
            assert(s[i + 1] != x);
        }
        assert(s[0] != x);
        assert(s[n - 1] != x);
    }
}

/// The nodes below the root of `t` are untouched by the swap.
#[verifier::spinoff_prover]
#[verifier::rlimit(40)]
proof fn lemma_swap_agrees(m: StoreView, parent: NodeId, s: Seq<NodeId>, item: NodeId, rep: NodeId, t: Tree)
    requires
        tree_ids(t).no_duplicates(),
        t.id == item,
        !tree_ids(t).contains(parent),
        !tree_ids(t).contains(rep),
        forall|j: int| 0 <= j < s.len() && s[j] != item ==> !tree_ids(t).contains(#[trigger] s[j]),
        forall|x: NodeId| x != item && x != rep && x != parent && !s.contains(x)
            ==> #[trigger] swapped_in(m, parent, item, rep).nodes[x] == m.nodes[x],
        swapped_in(m, parent, item, rep).nodes.dom() == m.nodes.dom(),
    ensures
        m.agrees_on(swapped_in(m, parent, item, rep), forest_ids(t.kids).to_set()),
{
    let a = swapped_in(m, parent, item, rep);
    assert(tree_ids(t) == seq![t.id] + forest_ids(t.kids));
    assert forall|x: NodeId| forest_ids(t.kids).to_set().contains(x) implies (m.live(x) == a.live(x)
        && (m.live(x) ==> m.nodes[x] == a.nodes[x])) by {
        let j = choose|j: int| 0 <= j < forest_ids(t.kids).len() && forest_ids(t.kids)[j] == x;
        assert(tree_ids(t)[j + 1] == x);
        assert(tree_ids(t).contains(x));
        assert(tree_ids(t)[0] == item);
        assert(x != item);
        if s.contains(x) {
            let k = choose|k: int| 0 <= k < s.len() && s[k] == x;
            assert(!tree_ids(t).contains(s[k]));
        }
    }
}

/// After the swap, the tree that `item` owns is a forest of one tree from `item`.
#[verifier::spinoff_prover]
#[verifier::rlimit(90)]
proof fn lemma_swap_keeps_tree(m: StoreView, parent: NodeId, i: int, rep: NodeId)
    requires
        replace_ok(m, parent, m.children(parent)[i], rep),
        0 <= i < m.children(parent).len(),
    ensures
        swapped_in(m, parent, m.children(parent)[i], rep).forest_valid(
            Some(m.children(parent)[i]), seq![m.tree_of(m.children(parent)[i], true)], true),
        forest_ids(seq![m.tree_of(m.children(parent)[i], true)]).no_duplicates(),
        swapped_in(m, parent, m.children(parent)[i], rep).has_forest(Some(m.children(parent)[i]), true),
        swapped_in(m, parent, m.children(parent)[i], rep).forest(Some(m.children(parent)[i]), true)
            == seq![m.tree_of(m.children(parent)[i], true)],
{
    let s = m.children(parent);
    let item = s[i];
    let t = m.tree_of(item, true);
    let a = swapped_in(m, parent, item, rep);
    crate::tree::lemma_tree_is(m, t, true);
    crate::tree::lemma_chain_is(m, m.nodes[parent].child, s);
    lemma_swap_list(m, parent, s, i, rep);
    lemma_swap_agrees(m, parent, s, item, rep, t);
    assert(tree_ids(t)[0] == t.id);
    if m.descends(item, true) {
        crate::tree::lemma_forest_frame(m, a, m.nodes[item].child, t.kids, true);
    }
    assert(a.tree_valid(t, true));
    let f = seq![t];
    assert(tops(f) =~= seq![item]);
    crate::tree::lemma_forest_single(m, t);
    assert(a.forest_valid(Some(item), f, true));
    crate::tree::lemma_forest_is(a, Some(item), f, true);
}

/// Put `replacement` in the place of `item` among the children of `parent`.
#[verifier::spinoff_prover]
#[verifier::rlimit(40)]
fn swap_links(store: &mut SafeStore, parent: NodeId, item: NodeId, replacement: NodeId)
    requires
        old(store)@.live(parent),
        old(store)@.live(item),
        old(store)@.live(replacement),
        old(store)@.nodes[item].next matches Some(n) ==> old(store)@.live(n),
        old(store)@.nodes[item].prev matches Some(p) ==> old(store)@.live(p),
        old(store)@.nodes[parent].child matches Some(c) ==> old(store)@.live(c),
    ensures
        final(store)@ == swapped_in(old(store)@, parent, item, replacement),
{
    let nx = store.next(item);
    store.set_next(replacement, nx);
    let pv = store.prev(item);
    store.set_prev(replacement, pv);
    match store.next(replacement) {
        Some(n) => {
            store.set_prev(n, Some(replacement));
        },
        None => {},
    }
    let c = store.child(parent);
    if c.is_some() && c.unwrap() == item {
        let ip = store.prev(item);
        if ip.is_some() && ip.unwrap() == item {
            store.set_prev(replacement, Some(replacement));
        }
        store.set_child(parent, Some(replacement));
    } else {
        match store.prev(replacement) {
            Some(p) => {
                store.set_next(p, Some(replacement));
            },
            None => {},
        }
        if store.next(replacement).is_none() {
            match store.child(parent) {
                Some(c0) => {
                    store.set_prev(c0, Some(replacement));
                },
                None => {},
            }
        }
    }
    store.set_next(item, None);
    store.set_prev(item, None);
}

/// Put `replacement` in the place of the child
/// `item` of `parent` and delete `item`. `false` (nothing changed) when `parent` has no
/// children; `true` at once when the two are the same node.
#[verifier::spinoff_prover]
#[verifier::rlimit(60)]
pub fn replace_item_via_pointer(store: &mut SafeStore, parent: NodeId, item: NodeId, replacement: NodeId) -> (r: bool)
    requires
        old(store)@.live(parent),
        old(store)@.nodes[parent].child is Some && replacement != item ==> replace_ok(old(store)@, parent, item, replacement),
    ensures
        r == old(store)@.nodes[parent].child is Some,
        !r || replacement == item ==> final(store)@ == old(store)@,
        r && replacement != item ==> ({
            let mid = swapped_in(old(store)@, parent, item, replacement);
            &&& mid.is_list(mid.nodes[parent].child, old(store)@.children(parent).update(
                old(store)@.children(parent).index_of(item), replacement))
            &&& final(store)@ == mid.after_delete(seq![old(store)@.tree_of(item, true)])
        }),
{
    if store.child(parent).is_none() {
        return false;
    }
    if replacement == item {
        return true;
    }
    let ghost m = store@;
    let ghost s = m.children(parent);
    let ghost i = s.index_of(item);
    proof {
        crate::tree::lemma_chain_is(m, m.nodes[parent].child, s);
        assert(s[i] == item);
        lemma_swap_keeps_tree(m, parent, i, replacement);
        assert(m.live(s[0]));
        assert(s[s.len() - 1] == s.last());
        assert(m.live(s.last()));
        if i > 0 {
            assert(m.nodes[item].prev == Some(s[i - 1]));
        } else {
            assert(m.nodes[item].prev == Some(s.last()));
        }
        if i + 1 < s.len() {
            assert(m.nodes[item].next == Some(s[i + 1]));
        }
    }
    swap_links(store, parent, item, replacement);
    store.delete(Some(item));
    true
}

/// `rep` without its key, which is freed unless constant.
pub open spec fn unkeyed(m: StoreView, rep: NodeId) -> StoreView {
    let d = m.nodes[rep];
    if !spec_string_is_const(d.ty) && d.key is Some {
        let m1 = m.with_node(rep, NodeData { key: None, ..d });
        StoreView { strings: m1.strings.remove(d.key.unwrap()), ..m1 }
    } else {
        m
    }
}

/// `after` is `before` with `rep` keyed by the fresh string `sid` holding `name`, its key
/// no longer marked constant.
pub open spec fn renamed(before: StoreView, after: StoreView, rep: NodeId, sid: StrId, name: Seq<u8>) -> bool {
    let d = before.nodes[rep];
    &&& !before.strings.contains_key(sid)
    &&& sid.0 < after.str_slots
    &&& after.str_slots >= before.str_slots
    &&& after == (StoreView {
        strings: before.strings.insert(sid, name),
        str_slots: after.str_slots,
        ..before.with_node(rep, NodeData { key: Some(sid), ty: d.ty & !STRING_IS_CONST, ..d })
    })
}

/// Replacing the member of `object` that `name` finds in `before` by `rep`.
pub open spec fn replaced_member(before: StoreView, after: StoreView, object: NodeId, name: Seq<u8>, rep: NodeId, cs: bool, r: bool) -> bool {
    match object_lookup(before, before.children(object), name, cs) {
        None => !r && after == before,
        Some(it) => r && after == swapped_in(before, object, it, rep).after_delete(seq![before.tree_of(it, true)]),
    }
}

/// What `replace_item_in_object` needs: the children of `object` can be looked up, and
/// `rep` can take the place of any of them.
pub open spec fn member_replace_ok(m: StoreView, object: NodeId, rep: NodeId) -> bool {
    &&& listed(m, object)
    &&& keyed_walkable(m, object)
    &&& m.live(rep)
    &&& m.str_ok(m.nodes[rep].key)
    &&& rep != object
    &&& !m.children(object).contains(rep)
    &&& forall|j: int| 0 <= j < m.children(object).len() ==> replace_ok(m, object, #[trigger] m.children(object)[j], rep)
}

/// Changing only the fields of `rep` (outside the children of `object` and their trees)
/// keeps what replacing needs.
#[verifier::spinoff_prover]
#[verifier::rlimit(40)]
proof fn lemma_rekey_frame(m: StoreView, m2: StoreView, object: NodeId, rep: NodeId, d: NodeData)
    requires
        member_replace_ok(m, object, rep),
        m2.nodes == m.nodes.insert(rep, d),
        m2.str_slots >= m.str_slots,
        d.child == m.nodes[rep].child,
        d.next == m.nodes[rep].next,
        d.prev == m.nodes[rep].prev,
    ensures
        listed(m2, object),
        keyed_walkable(m2, object),
        m2.children(object) == m.children(object),
        forall|j: int| 0 <= j < m2.children(object).len() ==> replace_ok(m2, object, #[trigger] m2.children(object)[j], rep),
{
    let s = m.children(object);
    crate::tree::lemma_chain_is(m, m.nodes[object].child, s);
    assert forall|j: int| 0 <= j < s.len() implies m2.nodes[#[trigger] s[j]] == m.nodes[s[j]] by {
        assert(s[j] != rep);
    }
    assert(m2.is_chain(m2.nodes[object].child, s));
    crate::tree::lemma_chain_is(m2, m2.nodes[object].child, s);
    assert(m2.is_list(m2.nodes[object].child, s));
    assert forall|j: int| 0 <= j < s.len() implies replace_ok(m2, object, #[trigger] s[j], rep) by {
        let it = s[j];
        assert(replace_ok(m, object, it, rep));
        let t = m.tree_of(it, true);
        crate::tree::lemma_tree_is(m, t, true);
        assert(m.agrees_on(m2, tree_ids(t).to_set())) by {
            assert forall|x: NodeId| tree_ids(t).to_set().contains(x) implies (m.live(x) == m2.live(x)
                && (m.live(x) ==> m.nodes[x] == m2.nodes[x])) by {
                assert(tree_ids(t).contains(x));
                assert(x != rep);
            }
        }
        crate::tree::lemma_tree_frame(m, m2, t, true);
        crate::tree::lemma_tree_is(m2, t, true);
    }
}

/// Give `replacement` the key `name` (its old key freed
/// unless constant) and put it in the place of the member that `name` finds. `false` when
/// the key cannot be allocated (the old key is gone) or no member is found (the
/// replacement keeps its new key).
#[verifier::spinoff_prover]
#[verifier::rlimit(40)]
pub fn replace_item_in_object(store: &mut SafeStore, object: NodeId, name: &[u8], replacement: NodeId, case_sensitive: bool) -> (r: bool)
    requires
        member_replace_ok(old(store)@, object, replacement),
    ensures
        old(store)@.fail_allocs ==> !r && final(store)@ == unkeyed(old(store)@, replacement),
        !old(store)@.fail_allocs ==> exists|m2: StoreView, sid: StrId| #[trigger] renamed(unkeyed(old(store)@, replacement), m2, replacement, sid, name@)
            && replaced_member(m2, final(store)@, object, name@, replacement, case_sensitive, r),
{
    let ghost m = store@;
    let ty = store.ty(replacement);
    if !crate::types::string_is_const(ty) {
        match store.key_id(replacement) {
            Some(k) => {
                store.set_key_id(replacement, None);
                store.free_str(k);
            },
            None => {},
        }
    }
    let ghost m1 = store@;
    proof {
        assert(m1 == unkeyed(m, replacement));
    }
    let sid = match store.alloc_str(name) {
        Some(s) => s,
        None => return false,
    };
    store.set_key_id(replacement, Some(sid));
    let ty2 = store.ty(replacement);
    store.set_ty(replacement, ty2 & !STRING_IS_CONST);
    let ghost m2 = store@;
    proof {
        let d = m1.nodes[replacement];
        assert(m2.nodes =~= m1.nodes.insert(replacement, NodeData { key: Some(sid), ty: d.ty & !STRING_IS_CONST, ..d }));
        assert(renamed(m1, m2, replacement, sid, name@));
        assert(m2.nodes =~= m.nodes.insert(replacement, NodeData { key: Some(sid), ty: d.ty & !STRING_IS_CONST, ..d }));
        lemma_rekey_frame(m, m2, object, replacement, NodeData { key: Some(sid), ty: d.ty & !STRING_IS_CONST, ..d });
    }
    let item = match get_object_item(store, Some(object), Some(name), case_sensitive) {
        Some(i) => i,
        None => {
            proof {
                assert(replaced_member(m2, store@, object, name@, replacement, case_sensitive, false));
            }
            return false;
        },
    };
    proof {
        let s = m2.children(object);
        lemma_first_stop(m2, s, name@, case_sensitive, 0);
        let j = first_stop(m2, s, name@, case_sensitive, 0);
        assert(s[j] == item);
        assert(replace_ok(m2, object, item, replacement));
        assert(m2.nodes[object].child is Some);
    }
    let r = replace_item_via_pointer(store, object, item, replacement);
    proof {
        assert(replaced_member(m2, store@, object, name@, replacement, case_sensitive, r));
    }
    r
}

} // verus!
