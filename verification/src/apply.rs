//! Applying RFC 6902 JSON Patch operations to a document in the store.
use vstd::prelude::*;
use crate::store::{NodeId, NodeData, SafeStore, StoreView};
use crate::tree::{Tree, tops, tree_ids, forest_ids};
use crate::types::{spec_is_reference, spec_type_kind, ARRAY};
use crate::compare::tree_ready;
use crate::dom::{listed, keyed_walkable, unlinked};
use crate::dup::handles_live;
use crate::equal::{nd, disjoint, cj_ready, lemma_tree_contains, lemma_forest_contains, lemma_nd_nodup};
use crate::surgery::{cut, own, own_forest, lemma_cut_valid, lemma_cut_ids, lemma_subtree, lemma_own_valid, lemma_children_in, lemma_root_links};

verus! {

/// What editing a document tree `t` needs: it is ready to walk and compare, every node's
/// children form a list whose keys can be read, and every string handle is live.
pub open spec fn doc_ok(m: StoreView, t: Tree) -> bool {
    &&& cj_ready(m, t)
    &&& forall|x: NodeId| #[trigger] tree_ids(t).contains(x) ==> listed(m, x) && keyed_walkable(m, x) && handles_live(m, x)
}

/// No string that a node of `t` owns is held by another node of `t` or by a node of `u`.
pub open spec fn strs_unshared(m: StoreView, t: Tree, u: Tree) -> bool {
    forall|x: NodeId, y: NodeId, k: crate::store::StrId|
        #![trigger tree_ids(t).contains(x), m.node_strs(x).contains(k), m.nodes[y]]
        tree_ids(t).contains(x) && m.node_strs(x).contains(k) && x != y
            && (tree_ids(t).contains(y) || tree_ids(u).contains(y))
        ==> m.nodes[y].key != Some(k) && m.nodes[y].valuestring != Some(k)
}

/// A node strictly below the child `c` of `p` is neither `p` nor another child of `p`.
proof fn lemma_below_child(m: StoreView, t: Tree, p: NodeId, c: NodeId, sc: Tree, x: NodeId)
    requires
        m.tree_valid(t, false),
        nd(t),
        tree_ids(t).contains(p),
        m.children(p).contains(c),
        sc.id == c,
        m.tree_valid(sc, false),
        nd(sc),
        forest_ids(sc.kids).contains(x),
    ensures
        x != p,
        !m.children(p).contains(x),
{
    lemma_forest_contains(sc.kids, x);
    let k = choose|k: int| 0 <= k < sc.kids.len() && #[trigger] tree_ids(sc.kids[k]).contains(x);
    assert(!tree_ids(sc.kids[k]).contains(c));
    if x == p {
        let sp = lemma_subtree(m, sc.kids[k], p);
        assert(tree_ids(sp)[0] == sp.id);
        lemma_children_in(m, sp, p);
        assert(tree_ids(sp).contains(c));
    }
    let sp = lemma_subtree(m, t, p);
    assert(tree_ids(sp)[0] == sp.id);
    lemma_children_in(m, sp, p);
    crate::tree::lemma_chain_is(m, m.nodes[p].child, tops(sp.kids));
    if m.children(p).contains(x) {
        let ps = m.children(p);
        let i = choose|i: int| 0 <= i < ps.len() && ps[i] == c;
        let j = choose|j: int| 0 <= j < ps.len() && ps[j] == x;
        assert(ps == tops(sp.kids));
        assert(sp.kids[i].id == c);
        assert(sp.kids[j].id == x);
        crate::tree::lemma_tree_unique(m, sc, sp.kids[i], false);
        assert(tree_ids(sc) == seq![sc.id] + forest_ids(sc.kids));
        let q = choose|q: int| 0 <= q < forest_ids(sc.kids).len() && forest_ids(sc.kids)[q] == x;
        assert(tree_ids(sc)[q + 1] == x);
        assert(tree_ids(sc).contains(x));
        assert(tree_ids(sp.kids[j])[0] == x);
        assert(tree_ids(sp.kids[j]).contains(x));
        if i == j {
            assert(x == c);
            assert(tree_ids(sc.kids[k])[0] == sc.kids[k].id);
            lemma_tree_contains(sc, x);
            assert(!tree_ids(sc.kids[k]).contains(sc.id));
        } else if i < j {
            assert(disjoint(sp.kids[i], sp.kids[j]));
        } else {
            assert(disjoint(sp.kids[j], sp.kids[i]));
        }
    }
}

/// The owned part of a subtree of a valid tree can be deleted once detached.
#[verifier::spinoff_prover]
#[verifier::rlimit(40)]
pub proof fn lemma_detached_deletable(m: StoreView, t: Tree, p: NodeId, c: NodeId) -> (s: Tree)
    requires
        m.tree_valid(t, false),
        nd(t),
        tree_ids(t).contains(p),
        listed(m, p),
        m.children(p).contains(c),
    ensures
        s.id == c,
        unlinked(m, p, c).has_forest(Some(c), true),
        unlinked(m, p, c).forest(Some(c), true) == seq![own(unlinked(m, p, c), s)],
        forall|y: NodeId| #[trigger] tree_ids(own(unlinked(m, p, c), s)).contains(y) ==> tree_ids(s).contains(y),
        forall|y: NodeId| #[trigger] tree_ids(s).contains(y) ==> tree_ids(t).contains(y) && !tree_ids(cut(t, c)).contains(y),
        unlinked(m, p, c).tree_valid(s, false),
        m.tree_valid(s, false),
        nd(s),
{
    let m1 = unlinked(m, p, c);
    lemma_children_in(m, t, p);
    let sc = lemma_subtree(m, t, c);
    let ps = m.children(p);
    crate::tree::lemma_chain_is(m, m.nodes[p].child, ps);
    let i = ps.index_of(c);
    crate::surgery::lemma_unlink_frame(m, p, ps, i);
    crate::dom::lemma_unlink_list(m, p, ps, i);
    // the nodes below `c` are neither `p` nor among `p`'s children
    assert(m.agrees_on(m1, forest_ids(sc.kids).to_set())) by {
        assert forall|x: NodeId| forest_ids(sc.kids).to_set().contains(x) implies (m.live(x) == m1.live(x)
            && (m.live(x) ==> m.nodes[x] == m1.nodes[x])) by {
            assert(tree_ids(sc) == seq![sc.id] + forest_ids(sc.kids));
            let q = choose|q: int| 0 <= q < forest_ids(sc.kids).len() && forest_ids(sc.kids)[q] == x;
            assert(tree_ids(sc)[q + 1] == x);
            assert(tree_ids(sc).contains(x));
            lemma_below_child(m, t, p, c, sc, x);
        }
    }
    lemma_root_links(m, m1, sc);
    lemma_own_valid(m1, sc);
    let o = own(m1, sc);
    lemma_nd_nodup(o);
    let f = seq![o];
    crate::tree::lemma_forest_single(m1, o);
    assert(tops(f) =~= seq![c]);
    assert(m1.forest_valid(Some(c), f, true));
    crate::tree::lemma_forest_is(m1, Some(c), f, true);
    sc
}

/// Two different nodes of a tree without repeats have no child in common.
pub proof fn lemma_unique_parent(m: StoreView, t: Tree, y: NodeId, p: NodeId, z: NodeId)
    requires
        m.tree_valid(t, false),
        nd(t),
        tree_ids(t).contains(y),
        tree_ids(t).contains(p),
        y != p,
        m.children(y).contains(z),
    ensures
        !m.children(p).contains(z),
    decreases t,
{
    lemma_tree_contains(t, y);
    lemma_tree_contains(t, p);
    let ks = t.kids;
    if m.children(p).contains(z) {
        if y == t.id || p == t.id {
            let (top, other) = if y == t.id { (y, p) } else { (p, y) };
            crate::tree::lemma_chain_is(m, m.nodes[t.id].child, tops(ks));
            let k = choose|k: int| 0 <= k < tops(ks).len() && tops(ks)[k] == z;
            assert(ks[k].id == z);
            let j = choose|j: int| 0 <= j < ks.len() && #[trigger] tree_ids(ks[j]).contains(other);
            lemma_children_in(m, ks[j], other);
            assert(tree_ids(ks[j]).contains(z));
            assert(z != ks[j].id);
            assert(tree_ids(ks[k])[0] == z);
            assert(tree_ids(ks[k]).contains(z));
            if k < j { assert(disjoint(ks[k], ks[j])); } else if k > j { assert(disjoint(ks[j], ks[k])); }
        } else {
            let jy = choose|j: int| 0 <= j < ks.len() && #[trigger] tree_ids(ks[j]).contains(y);
            let jp = choose|j: int| 0 <= j < ks.len() && #[trigger] tree_ids(ks[j]).contains(p);
            if jy == jp {
                lemma_unique_parent(m, ks[jy], y, p, z);
            } else {
                lemma_children_in(m, ks[jy], y);
                lemma_children_in(m, ks[jp], p);
                if jy < jp { assert(disjoint(ks[jy], ks[jp])); } else { assert(disjoint(ks[jp], ks[jy])); }
            }
        }
    }
}

/// The nodes of `m2` that `m1` has, and every string of `m1`, as they were.
pub open spec fn keeps(m1: StoreView, m2: StoreView) -> bool {
    &&& forall|x: NodeId| #[trigger] m1.live(x) ==> m2.live(x) && m2.nodes[x] == m1.nodes[x]
    &&& forall|k: crate::store::StrId| #[trigger] m1.strings.contains_key(k)
        ==> m2.strings.contains_key(k) && m2.strings[k] == m1.strings[k]
}

/// A document is still ready in a store that kept its nodes and strings.
pub proof fn lemma_doc_keeps(m1: StoreView, m2: StoreView, t: Tree)
    requires
        doc_ok(m1, t),
        keeps(m1, m2),
        m2.slots_ok(),
    ensures
        doc_ok(m2, t),
{
    assert(m1.agrees_on(m2, tree_ids(t).to_set())) by {
        assert forall|x: NodeId| tree_ids(t).to_set().contains(x) implies (m1.live(x) == m2.live(x)
            && (m1.live(x) ==> m1.nodes[x] == m2.nodes[x])) by {
            assert(tree_ids(t).contains(x));
            crate::utils::lemma_tree_ids_live(m1, t, x);
        }
    }
    crate::tree::lemma_tree_frame(m1, m2, t, false);
    assert forall|x: NodeId| #[trigger] tree_ids(t).contains(x) implies listed(m2, x) && keyed_walkable(m2, x)
        && handles_live(m2, x) && m2.str_ok(m2.nodes[x].valuestring) && m2.str_ok(m2.nodes[x].key) by {
        crate::utils::lemma_tree_ids_live(m1, t, x);
        assert(listed(m1, x));
        let cx = m1.children(x);
        crate::tree::lemma_chain_is(m1, m1.nodes[x].child, cx);
        assert forall|i: int| 0 <= i < cx.len() implies m2.nodes[#[trigger] cx[i]] == m1.nodes[cx[i]] by {
            assert(m1.live(cx[i]));
        }
        assert(m2.is_list(m2.nodes[x].child, cx));
        crate::tree::lemma_chain_is(m2, m2.nodes[x].child, cx);
        lemma_children_in(m1, t, x);
        assert forall|i: int| 0 <= i < cx.len() implies m2.str_ok(m2.nodes[#[trigger] cx[i]].key) by {
            assert(m1.live(cx[i]));
            assert(cx.contains(cx[i]));
            assert(tree_ids(t).contains(cx[i]));
            assert(handles_live(m1, cx[i]));
        }
    }
}

/// A document is still ready in a store that holds its nodes as they were and the strings
/// they hold.
pub proof fn lemma_doc_frame(m1: StoreView, m2: StoreView, t: Tree)
    requires
        doc_ok(m1, t),
        forall|x: NodeId| #[trigger] tree_ids(t).contains(x) ==> m2.live(x) && m2.nodes[x] == m1.nodes[x],
        forall|k: crate::store::StrId| #[trigger] m1.strings.contains_key(k)
            && (exists|x: NodeId| #[trigger] tree_ids(t).contains(x) && (m1.nodes[x].key == Some(k) || m1.nodes[x].valuestring == Some(k)))
            ==> m2.strings.contains_key(k),
        m2.slots_ok(),
    ensures
        doc_ok(m2, t),
{
    assert(m1.agrees_on(m2, tree_ids(t).to_set())) by {
        assert forall|x: NodeId| tree_ids(t).to_set().contains(x) implies (m1.live(x) == m2.live(x)
            && (m1.live(x) ==> m1.nodes[x] == m2.nodes[x])) by {
            assert(tree_ids(t).contains(x));
            crate::utils::lemma_tree_ids_live(m1, t, x);
        }
    }
    crate::tree::lemma_tree_frame(m1, m2, t, false);
    assert forall|x: NodeId| #[trigger] tree_ids(t).contains(x) implies handles_live(m2, x) by {
        assert(handles_live(m1, x));
        if m1.nodes[x].key is Some {
            let k = m1.nodes[x].key.unwrap();
            assert(m1.strings.contains_key(k));
        }
        if m1.nodes[x].valuestring is Some {
            let k = m1.nodes[x].valuestring.unwrap();
            assert(m1.strings.contains_key(k));
        }
    }
    assert forall|x: NodeId| #[trigger] tree_ids(t).contains(x) implies listed(m2, x) && keyed_walkable(m2, x)
        && m2.str_ok(m2.nodes[x].valuestring) && m2.str_ok(m2.nodes[x].key) by {
        assert(handles_live(m2, x));
        let cx = m1.children(x);
        crate::tree::lemma_chain_is(m1, m1.nodes[x].child, cx);
        lemma_children_in(m1, t, x);
        assert forall|i: int| 0 <= i < cx.len() implies m2.nodes[#[trigger] cx[i]] == m1.nodes[cx[i]] && m2.live(cx[i]) by {
            assert(cx.contains(cx[i]));
        }
        assert(m2.is_list(m2.nodes[x].child, cx));
        crate::tree::lemma_chain_is(m2, m2.nodes[x].child, cx);
        assert forall|i: int| 0 <= i < cx.len() implies m2.str_ok(m2.nodes[#[trigger] cx[i]].key) by {
            assert(cx.contains(cx[i]));
            assert(handles_live(m2, cx[i]));
        }
    }
}

/// One node of the cut document after unlinking: its children still form a list whose
/// keys can be read, and its string handles are as they were.
#[verifier::spinoff_prover]
#[verifier::rlimit(60)]
proof fn lemma_cut_node_ok(m: StoreView, t: Tree, p: NodeId, c: NodeId, y: NodeId)
    requires
        doc_ok(m, t),
        tree_ids(t).contains(p),
        m.children(p).contains(c),
        tree_ids(t).contains(y),
    ensures
        listed(unlinked(m, p, c), y),
        keyed_walkable(unlinked(m, p, c), y),
        handles_live(unlinked(m, p, c), y),
        unlinked(m, p, c).str_ok(unlinked(m, p, c).nodes[y].valuestring),
        unlinked(m, p, c).str_ok(unlinked(m, p, c).nodes[y].key),
{
    let m1 = unlinked(m, p, c);
    let s = m.children(p);
    lemma_children_in(m, t, p);
    crate::tree::lemma_chain_is(m, m.nodes[p].child, s);
    let i = s.index_of(c);
    assert(s[i] == c);
    crate::surgery::lemma_unlink_frame(m, p, s, i);
    crate::dom::lemma_unlink_list(m, p, s, i);
    crate::utils::lemma_tree_ids_live(m, t, y);
    assert(listed(m, y) && keyed_walkable(m, y) && handles_live(m, y));
    assert(m1.nodes[y].key == m.nodes[y].key && m1.nodes[y].valuestring == m.nodes[y].valuestring);
    if y == p {
        crate::tree::lemma_chain_is(m1, m1.nodes[p].child, s.remove(i));
        let s2 = s.remove(i);
        assert forall|j: int| 0 <= j < s2.len() implies m1.str_ok(m1.nodes[#[trigger] s2[j]].key) by {
            let j0 = if j < i { j } else { j + 1 };
            assert(s2[j] == s[j0]);
            assert(s.contains(s[j0]));
        }
    } else {
        let cy = m.children(y);
        crate::tree::lemma_chain_is(m, m.nodes[y].child, cy);
        assert forall|j: int| 0 <= j < cy.len() implies m1.nodes[#[trigger] cy[j]].next == m.nodes[cy[j]].next
            && m1.nodes[cy[j]].prev == m.nodes[cy[j]].prev && m1.live(cy[j])
            && m1.nodes[cy[j]].key == m.nodes[cy[j]].key by {
            assert(cy.contains(cy[j]));
            lemma_unique_parent(m, t, y, p, cy[j]);
        }
        assert(m1.nodes[y].child == m.nodes[y].child);
        assert(m1.is_list(m1.nodes[y].child, cy));
        crate::tree::lemma_chain_is(m1, m1.nodes[y].child, cy);
    }
}

/// After unlinking the child `c` of the node `p` of the document `t`, the document without
/// the subtree of `c` is ready, and so is the disjoint document `u`.
#[verifier::spinoff_prover]
#[verifier::rlimit(60)]
pub proof fn lemma_doc_after_unlink(m: StoreView, t: Tree, u: Tree, p: NodeId, c: NodeId)
    requires
        doc_ok(m, t),
        doc_ok(m, u),
        disjoint(t, u),
        tree_ids(t).contains(p),
        m.children(p).contains(c),
        m.slots_ok(),
    ensures
        unlinked(m, p, c).slots_ok(),
        doc_ok(unlinked(m, p, c), cut(t, c)),
        doc_ok(unlinked(m, p, c), u),
        disjoint(cut(t, c), u),
        cut(t, c).id == t.id,
        forall|y: NodeId| #[trigger] tree_ids(cut(t, c)).contains(y) ==> tree_ids(t).contains(y),
        unlinked(m, p, c).strings == m.strings,
        unlinked(m, p, c).str_slots == m.str_slots,
        unlinked(m, p, c).fail_allocs == m.fail_allocs,
{
    let m1 = unlinked(m, p, c);
    let t2 = cut(t, c);
    let s = m.children(p);
    lemma_cut_valid(m, t, p, c);
    lemma_cut_ids(t, c);
    lemma_children_in(m, t, p);
    crate::tree::lemma_chain_is(m, m.nodes[p].child, s);
    let i = s.index_of(c);
    assert(s[i] == c);
    crate::surgery::lemma_unlink_frame(m, p, s, i);
    crate::dom::lemma_unlink_list(m, p, s, i);
    assert forall|x: NodeId| #[trigger] tree_ids(u).contains(x) implies m1.live(x) && m1.nodes[x] == m.nodes[x] by {
        assert(!tree_ids(t).contains(x));
        crate::utils::lemma_tree_ids_live(m, u, x);
    }
    assert(m1.slots_ok());
    lemma_doc_frame(m, m1, u);
    assert forall|y: NodeId| #[trigger] tree_ids(t2).contains(y) implies listed(m1, y) && keyed_walkable(m1, y)
        && handles_live(m1, y) && m1.str_ok(m1.nodes[y].valuestring) && m1.str_ok(m1.nodes[y].key) by {
        lemma_cut_node_ok(m, t, p, c, y);
    }
    assert(disjoint(t2, u));
}

/// A string a tree owns is owned by one of its nodes.
pub proof fn lemma_tree_strs_owner(m: StoreView, t: Tree, k: crate::store::StrId)
    requires
        m.tree_strs(t).contains(k),
    ensures
        exists|x: NodeId| #[trigger] tree_ids(t).contains(x) && m.node_strs(x).contains(k),
    decreases t, 1nat,
{
    lemma_tree_contains(t, t.id);
    if !m.node_strs(t.id).contains(k) {
        assert(m.forest_strs(t.kids).contains(k));
        lemma_forest_strs_owner(m, t.kids, k);
        let x = choose|x: NodeId| #[trigger] forest_ids(t.kids).contains(x) && m.node_strs(x).contains(k);
        lemma_forest_contains(t.kids, x);
        lemma_tree_contains(t, x);
    }
}

pub proof fn lemma_forest_strs_owner(m: StoreView, ts: Seq<Tree>, k: crate::store::StrId)
    requires
        m.forest_strs(ts).contains(k),
    ensures
        exists|x: NodeId| #[trigger] forest_ids(ts).contains(x) && m.node_strs(x).contains(k),
    decreases ts, 0nat,
{
    if ts.len() > 0 {
        let rest = ts.drop_first();
        assert(forest_ids(ts) == tree_ids(ts[0]) + forest_ids(rest));
        if m.tree_strs(ts[0]).contains(k) {
            lemma_tree_strs_owner(m, ts[0], k);
            let x = choose|x: NodeId| #[trigger] tree_ids(ts[0]).contains(x) && m.node_strs(x).contains(k);
            lemma_forest_contains(ts, x);
        } else {
            lemma_forest_strs_owner(m, rest, k);
            let x = choose|x: NodeId| #[trigger] forest_ids(rest).contains(x) && m.node_strs(x).contains(k);
            lemma_forest_contains(rest, x);
            let j = choose|j: int| 0 <= j < rest.len() && #[trigger] tree_ids(rest[j]).contains(x);
            assert(rest[j] == ts[j + 1]);
            lemma_forest_contains(ts, x);
        }
    }
}

/// Deleting a tree `o` that shares no node with the documents `t` and `u`, and owns no
/// string they hold, leaves them ready.
#[verifier::spinoff_prover]
#[verifier::rlimit(40)]
pub proof fn lemma_doc_after_delete(m1: StoreView, t: Tree, u: Tree, o: Tree)
    requires
        doc_ok(m1, t),
        doc_ok(m1, u),
        m1.slots_ok(),
        forall|y: NodeId| #[trigger] tree_ids(o).contains(y) ==> !tree_ids(t).contains(y) && !tree_ids(u).contains(y),
        forall|x: NodeId, y: NodeId, k: crate::store::StrId|
            #![trigger tree_ids(o).contains(x), m1.node_strs(x).contains(k), m1.nodes[y]]
            tree_ids(o).contains(x) && m1.node_strs(x).contains(k) && (tree_ids(t).contains(y) || tree_ids(u).contains(y))
            ==> m1.nodes[y].key != Some(k) && m1.nodes[y].valuestring != Some(k),
    ensures
        doc_ok(m1.after_delete(seq![o]), t),
        doc_ok(m1.after_delete(seq![o]), u),
        m1.after_delete(seq![o]).slots_ok(),
{
    let m2 = m1.after_delete(seq![o]);
    crate::tree::lemma_forest_single(m1, o);
    assert forall|k: crate::store::StrId| #[trigger] m2.strings.contains_key(k) implies k.0 < m2.str_slots by {
        assert(m1.strings.contains_key(k));
    }
    assert forall|x: NodeId| #[trigger] tree_ids(t).contains(x) implies m2.live(x) && m2.nodes[x] == m1.nodes[x] by {
        crate::utils::lemma_tree_ids_live(m1, t, x);
        assert(!forest_ids(seq![o]).to_set().contains(x));
    }
    assert forall|x: NodeId| #[trigger] tree_ids(u).contains(x) implies m2.live(x) && m2.nodes[x] == m1.nodes[x] by {
        crate::utils::lemma_tree_ids_live(m1, u, x);
        assert(!forest_ids(seq![o]).to_set().contains(x));
    }
    assert forall|k: crate::store::StrId| #[trigger] m1.strings.contains_key(k)
        && (exists|x: NodeId| #[trigger] tree_ids(t).contains(x) && (m1.nodes[x].key == Some(k) || m1.nodes[x].valuestring == Some(k)))
        implies m2.strings.contains_key(k) by {
        let y = choose|x: NodeId| #[trigger] tree_ids(t).contains(x) && (m1.nodes[x].key == Some(k) || m1.nodes[x].valuestring == Some(k));
        if m1.forest_strs(seq![o]).contains(k) {
            lemma_tree_strs_owner(m1, o, k);
            let x = choose|x: NodeId| #[trigger] tree_ids(o).contains(x) && m1.node_strs(x).contains(k);
            assert(m1.nodes[y].key != Some(k));
        }
    }
    assert forall|k: crate::store::StrId| #[trigger] m1.strings.contains_key(k)
        && (exists|x: NodeId| #[trigger] tree_ids(u).contains(x) && (m1.nodes[x].key == Some(k) || m1.nodes[x].valuestring == Some(k)))
        implies m2.strings.contains_key(k) by {
        let y = choose|x: NodeId| #[trigger] tree_ids(u).contains(x) && (m1.nodes[x].key == Some(k) || m1.nodes[x].valuestring == Some(k));
        if m1.forest_strs(seq![o]).contains(k) {
            lemma_tree_strs_owner(m1, o, k);
            let x = choose|x: NodeId| #[trigger] tree_ids(o).contains(x) && m1.node_strs(x).contains(k);
            assert(m1.nodes[y].key != Some(k));
        }
    }
    lemma_doc_frame(m1, m2, t);
    lemma_doc_frame(m1, m2, u);
}

/// A copy made by `duplicate` is no reference, so the walk that deletes sees all of it.
pub proof fn lemma_copy_valid(m: StoreView, t2: Tree, t1: Tree)
    requires
        crate::dup::copy_of(m, t2, t1, true),
    ensures
        m.tree_valid(t2, true),
    decreases t1,
{
    let ty = m.nodes[t1.id].ty;
    assert((ty & !256i32) & 256i32 == 0) by (bit_vector);
    assert(!spec_is_reference(m.nodes[t2.id].ty));
    assert forall|i: int| 0 <= i < t2.kids.len() implies m.tree_valid(#[trigger] t2.kids[i], true) by {
        assert(crate::dup::copy_of(m, t2.kids[i], t1.kids[i], true));
        lemma_copy_valid(m, t2.kids[i], t1.kids[i]);
    }
}

/// A fresh copy, detached, can be deleted.
pub proof fn lemma_copy_deletable(m0: StoreView, md: StoreView, d: NodeId, v: NodeId)
    requires
        crate::dup::dup_done(m0, md, d, v, true),
    ensures
        md.has_forest(Some(d), true),
        forall|y: NodeId| #[trigger] forest_ids(md.forest(Some(d), true)).contains(y) ==> !m0.live(y),
        md.live(d),
        !m0.live(d),
{
    let t2 = choose|t2: Tree| #[trigger] crate::dup::duplicated(m0, md, d, t2, v, true);
    lemma_copy_valid(md, t2, crate::dup::dup_source(m0, v, true));
    let f = seq![t2];
    crate::tree::lemma_forest_single(md, t2);
    assert(tops(f) =~= seq![d]);
    assert(tree_ids(t2)[0] == d);
    assert(tree_ids(t2).contains(d));
    assert(md.forest_valid(Some(d), f, true));
    crate::tree::lemma_forest_is(md, Some(d), f, true);
}

/// A copy that is made and then deleted leaves the nodes of the store as they were: an add,
/// replace or copy whose placement fails (codes 9, 10, 11) changes no node of the store
/// beyond what came before the copy.
pub proof fn law_copy_then_delete(m0: StoreView, md: StoreView, d: NodeId, v: NodeId)
    requires
        crate::dup::dup_done(m0, md, d, v, true),
    ensures
        md.after_delete(md.forest(Some(d), true)).nodes == m0.nodes,
{
    let t2 = choose|t2: Tree| #[trigger] crate::dup::duplicated(m0, md, d, t2, v, true);
    lemma_copy_valid(md, t2, crate::dup::dup_source(m0, v, true));
    let f = seq![t2];
    crate::tree::lemma_forest_single(md, t2);
    assert(tops(f) =~= seq![d]);
    assert(tree_ids(t2)[0] == d);
    assert(md.forest_valid(Some(d), f, true));
    crate::tree::lemma_forest_is(md, Some(d), f, true);
    assert(f.drop_first() =~= Seq::<Tree>::empty());
    assert(forest_ids(f) =~= tree_ids(t2));
    let n2 = md.nodes.remove_keys(tree_ids(t2).to_set());
    assert forall|id: NodeId| #[trigger] n2.contains_key(id) <==> m0.nodes.contains_key(id) by {
        if tree_ids(t2).contains(id) {
            assert(tree_ids(t2).to_set().contains(id));
        }
        if m0.nodes.contains_key(id) {
            assert(md.nodes.dom().contains(id));
            assert(!tree_ids(t2).to_set().contains(id));
        }
        if md.nodes.dom().contains(id) && !tree_ids(t2).to_set().contains(id) {
            assert((m0.nodes.dom() + tree_ids(t2).to_set()).contains(id));
        }
    }
    assert(crate::dup::dup_grown(m0, md, t2));
    assert forall|id: NodeId| #[trigger] n2.contains_key(id) implies n2[id] == m0.nodes[id] by {
        assert(m0.nodes.contains_key(id));
        assert(m0.live(id));
    }
    assert(n2 =~= m0.nodes);
}

/// The subtree at a node of a document is a document, over nodes of it.
pub proof fn lemma_sub_doc(m: StoreView, t: Tree, x: NodeId)
    requires
        doc_ok(m, t),
        tree_ids(t).contains(x),
    ensures
        m.has_tree(x, false),
        m.tree_of(x, false).id == x,
        doc_ok(m, m.tree_of(x, false)),
        forall|y: NodeId| #[trigger] tree_ids(m.tree_of(x, false)).contains(y) ==> tree_ids(t).contains(y),
{
    let s = lemma_subtree(m, t, x);
    crate::tree::lemma_tree_is(m, s, false);
    assert forall|id: NodeId| #[trigger] tree_ids(s).contains(id) implies m.str_ok(m.nodes[id].valuestring)
        && m.str_ok(m.nodes[id].key) by {
        assert(tree_ids(t).contains(id));
    }
}

/// The children of the root of a document, with what they own, can be deleted.
pub proof fn lemma_kids_deletable(m: StoreView, t: Tree)
    requires
        m.tree_valid(t, false),
        nd(t),
    ensures
        m.has_forest(m.nodes[t.id].child, true),
        forall|y: NodeId| #[trigger] forest_ids(m.forest(m.nodes[t.id].child, true)).contains(y)
            ==> tree_ids(t).contains(y) && y != t.id,
{
    let ks = t.kids;
    let ts = own_forest(m, ks);
    crate::surgery::lemma_own_forest_index(m, ks);
    assert forall|k: int| 0 <= k < ks.len() implies m.tree_valid(#[trigger] ts[k], true) && nd(ts[k])
        && (forall|y: NodeId| #[trigger] tree_ids(ts[k]).contains(y) ==> tree_ids(ks[k]).contains(y)) by {
        lemma_own_valid(m, ks[k]);
    }
    assert(tops(ts) =~= tops(ks));
    assert(m.forest_valid(m.nodes[t.id].child, ts, true));
    let t2 = Tree { id: t.id, kids: ts };
    assert forall|k: int| 0 <= k < ts.len() implies !tree_ids(#[trigger] ts[k]).contains(t.id) by {
        assert(!tree_ids(ks[k]).contains(t.id));
    }
    assert forall|k: int, l: int| 0 <= k < l < ts.len() implies disjoint(#[trigger] ts[k], #[trigger] ts[l]) by {
        assert(disjoint(ks[k], ks[l]));
    }
    assert(nd(t2));
    lemma_nd_nodup(t2);
    assert(tree_ids(t2) == seq![t.id] + forest_ids(ts));
    assert(forest_ids(ts) =~= tree_ids(t2).subrange(1, tree_ids(t2).len() as int));
    assert(forest_ids(ts).no_duplicates()) by {
        assert forall|i: int, j: int| 0 <= i < j < forest_ids(ts).len() implies forest_ids(ts)[i] != forest_ids(ts)[j] by {
            assert(forest_ids(ts)[i] == tree_ids(t2)[i + 1]);
            assert(forest_ids(ts)[j] == tree_ids(t2)[j + 1]);
        }
    }
    crate::tree::lemma_forest_is(m, m.nodes[t.id].child, ts, true);
    assert forall|y: NodeId| #[trigger] forest_ids(ts).contains(y) implies tree_ids(t).contains(y) && y != t.id by {
        lemma_forest_contains(ts, y);
        let k = choose|k: int| 0 <= k < ts.len() && #[trigger] tree_ids(ts[k]).contains(y);
        assert(tree_ids(ks[k]).contains(y));
        lemma_tree_contains(t, y);
        assert(tree_ids(t2)[0] == t.id);
        let q = choose|q: int| 0 <= q < forest_ids(ts).len() && forest_ids(ts)[q] == y;
        assert(tree_ids(t2)[q + 1] == y);
    }
}

/// The detached node `value` can be deleted and lies outside the document `t`.
pub open spec fn loose(m: StoreView, t: Tree, value: NodeId) -> bool {
    &&& m.live(value)
    &&& !tree_ids(t).contains(value)
    &&& m.has_forest(Some(value), true)
    &&& forall|y: NodeId| #[trigger] forest_ids(m.forest(Some(value), true)).contains(y) ==> !tree_ids(t).contains(y)
}

/// The parent that `path` names below `object` for placing a value: what the path before
/// its last `/` leads to (none without a `/`).
pub open spec fn put_parent(m: StoreView, object: NodeId, path: Seq<u8>, cs: bool) -> Option<NodeId> {
    let k = crate::patch::last_slash(path, path.len() as int);
    if k < 0 {
        None
    } else {
        crate::utils::ptr_walk(m, Some(m.tree_of(object, false)), path.subrange(0, k), 0, cs)
    }
}

/// The decoded last token of `path`: the index or key under which a value is placed.
pub open spec fn put_token(path: Seq<u8>) -> Seq<u8> {
    let k = crate::patch::last_slash(path, path.len() as int);
    crate::pointer::decode_token(path.subrange(k + 1, path.len() as int))
}

/// The code that placing a value at `path` ends with: 9 without a parent or with one that is
/// neither array nor object; for an array, `-` or an index up to its length is 0, any other
/// token 11, a larger index 10; for an object 0.
pub open spec fn put_code(m: StoreView, object: NodeId, path: Seq<u8>, cs: bool) -> i32 {
    match put_parent(m, object, path, cs) {
        None => 9,
        Some(p) => if spec_type_kind(m.nodes[p].ty) == ARRAY {
            if put_token(path) == seq![45u8] {
                0
            } else {
                match crate::pointer::array_index(put_token(path)) {
                    None => 11,
                    Some(i) => if i <= m.children(p).len() { 0 } else { 10 },
                }
            }
        } else if spec_type_kind(m.nodes[p].ty) == crate::types::OBJECT {
            0
        } else {
            9
        },
    }
}

/// The store `m2` after `value` is placed at `path` in `m`: appended to an array for `-` or
/// for an index equal to its length, inserted before the element at a smaller index; in an
/// object, the first member the key reaches is unlinked and deleted, then `value` is keyed
/// with a copy of the token and appended (the store left without it when the key cannot be
/// allocated).
pub open spec fn put_done(m: StoreView, m2: StoreView, object: NodeId, path: Seq<u8>, value: NodeId, cs: bool) -> bool {
    let p = put_parent(m, object, path, cs).unwrap();
    let tok = put_token(path);
    if spec_type_kind(m.nodes[p].ty) == ARRAY {
        if tok == seq![45u8] {
            m2 == crate::dom::appended(m, p, value)
        } else {
            let i = crate::pointer::array_index(tok).unwrap();
            if i < m.children(p).len() {
                m2 == crate::dom::inserted_before(m, p, m.children(p)[i as int], value)
            } else {
                m2 == crate::dom::appended(m, p, value)
            }
        }
    } else {
        keyed_in(member_dropped(m, p, tok, cs), m2, p, value, tok)
    }
}

/// The store after the first member of the object `p` that `key` reaches (if any) is
/// unlinked and deleted with everything below it.
pub open spec fn member_dropped(m: StoreView, p: NodeId, key: Seq<u8>, cs: bool) -> StoreView {
    match crate::dom::object_lookup(m, m.children(p), key, cs) {
        None => m,
        Some(x) => unlinked(m, p, x).after_delete(unlinked(m, p, x).forest(Some(x), true)),
    }
}

/// `m2` is `m1` with `value` keyed by a fresh copy of `key` and appended to `p`; `m1`
/// itself when allocation fails (the key cannot be allocated).
pub open spec fn keyed_in(m1: StoreView, m2: StoreView, p: NodeId, value: NodeId, key: Seq<u8>) -> bool {
    if m1.fail_allocs {
        m2 == m1
    } else {
        exists|sid: crate::store::StrId| #![trigger crate::dom::rekeyed(m1, value, sid, key, false)]
            !m1.strings.contains_key(sid) && m2 == crate::dom::appended(
                StoreView { str_slots: m2.str_slots, ..crate::dom::rekeyed(m1, value, sid, key, false) }, p, value)
    }
}

/// Placing a value in an object, when allocation does not fail, makes it the object's last
/// member under the decoded last token of the path: its key reads as the token, and the
/// first member's link to the last names it.
pub proof fn law_put_in_object(m: StoreView, m2: StoreView, object: NodeId, path: Seq<u8>, value: NodeId, cs: bool)
    requires
        put_parent(m, object, path, cs) is Some,
        spec_type_kind(m.nodes[put_parent(m, object, path, cs).unwrap()].ty) == crate::types::OBJECT,
        put_done(m, m2, object, path, value, cs),
        !m.fail_allocs,
        ({
            let p = put_parent(m, object, path, cs).unwrap();
            let md = member_dropped(m, p, put_token(path), cs);
            &&& md.nodes[p].child matches Some(c) ==> md.nodes[c].prev is Some
            &&& md.nodes[value].key matches Some(k) ==> md.strings.contains_key(k)
        }),
    ensures
        m2.key_of(value) == Some(put_token(path)),
        ({
            let p = put_parent(m, object, path, cs).unwrap();
            m2.nodes[p].child matches Some(c) && m2.nodes[c].prev == Some(value)
        }),
{
    let p = put_parent(m, object, path, cs).unwrap();
    let tok = put_token(path);
    let md = member_dropped(m, p, tok, cs);
    assert(md.fail_allocs == m.fail_allocs);
    assert(spec_type_kind(m.nodes[p].ty) != ARRAY);
    assert(keyed_in(md, m2, p, value, tok));
    let sid = choose|sid: crate::store::StrId| #![trigger crate::dom::rekeyed(md, value, sid, tok, false)]
        !md.strings.contains_key(sid) && m2 == crate::dom::appended(
            StoreView { str_slots: m2.str_slots, ..crate::dom::rekeyed(md, value, sid, tok, false) }, p, value);
    let mk = StoreView { str_slots: m2.str_slots, ..crate::dom::rekeyed(md, value, sid, tok, false) };
    assert(mk.nodes[value].key == Some(sid));
    assert(mk.strings[sid] == tok);
    assert(mk.nodes[p].child == md.nodes[p].child || p == value);
}

/// Placing `value` at `path` took `m` to `m2` with code `r`: on failure `value` and
/// everything below it are deleted and nothing else changes.
pub open spec fn put_result(m: StoreView, m2: StoreView, object: NodeId, path: Seq<u8>, value: NodeId, cs: bool, r: i32) -> bool {
    &&& r == put_code(m, object, path, cs)
    &&& r == 0 ==> put_done(m, m2, object, path, value, cs)
    &&& r != 0 ==> m2 == m.after_delete(m.forest(Some(value), true))
}

/// Whether `b` is the single byte `-`.
fn is_dash(b: &Vec<u8>) -> (r: bool)
    ensures
        r == (b@ == seq![45u8]),
{
    if b.len() == 1 && b[0] == 45 {
        proof { assert(b@ =~= seq![45u8]); }
        true
    } else {
        false
    }
}

/// Unlink and delete the first member of the object `parent` (in the document `t`) that
/// `key` reaches, leaving `value` ready to be appended.
#[verifier::spinoff_prover]
#[verifier::rlimit(80)]
fn drop_member(store: &mut SafeStore, parent: NodeId, child: &[u8], value: NodeId, cs: bool, Ghost(t): Ghost<Tree>)
    requires
        doc_ok(old(store)@, t),
        tree_ids(t).contains(parent),
        loose(old(store)@, t, value),
    ensures
        final(store)@ == member_dropped(old(store)@, parent, child@, cs),
        crate::dom::append_ok(final(store)@, parent, value),
{
    let ghost m = store@;
    proof {
        crate::tree::lemma_tree_is(m, t, false);
        assert(listed(m, parent) && keyed_walkable(m, parent));
        assert(parent != value);
        let ps = m.children(parent);
        crate::tree::lemma_chain_is(m, m.nodes[parent].child, ps);
        if ps.len() > 0 {
            assert(m.live(ps[0]));
            assert(ps[ps.len() - 1] == ps.last());
            assert(m.live(ps.last()));
        }
    }
    let ghost m0 = store@;
    match crate::dom::detach_item_from_object(store, parent, child, cs) {
        Some(old) => {
            proof {
                let ps = m0.children(parent);
                crate::dom::lemma_first_stop(m0, ps, child@, cs, 0);
                assert(ps.contains(old));
                let so = lemma_detached_deletable(m0, t, parent, old);
                lemma_children_in(m0, t, parent);
                crate::tree::lemma_chain_is(m0, m0.nodes[parent].child, ps);
                let i = ps.index_of(old);
                assert(ps[i] == old);
                crate::dom::lemma_unlink_list(m0, parent, ps, i);
            }
            let ghost m1 = store@;
            store.delete(Some(old));
            proof {
                let ps = m0.children(parent);
                let i = ps.index_of(old);
                let s2 = ps.remove(i);
                let so = lemma_detached_deletable(m0, t, parent, old);
                let o = own(m1, so);
                crate::tree::lemma_forest_single(m1, o);
                // the deleted nodes are below `old`: neither `parent`, nor its other
                // children, nor `value`
                assert forall|y: NodeId| #[trigger] tree_ids(o).contains(y) implies y != parent && y != value
                    && !s2.contains(y) by {
                    assert(tree_ids(so).contains(y));
                    assert(tree_ids(t).contains(y));
                    if y == old {
                        lemma_children_in(m0, t, parent);
                        if s2.contains(y) {
                            let j = choose|j: int| 0 <= j < s2.len() && s2[j] == y;
                            let j0 = if j < i { j } else { j + 1 };
                            assert(s2[j] == ps[j0]);
                        }
                    } else {
                        assert(tree_ids(so) == seq![so.id] + forest_ids(so.kids));
                        let q = choose|q: int| 0 <= q < tree_ids(so).len() && tree_ids(so)[q] == y;
                        assert(forest_ids(so.kids)[q - 1] == y);
                        assert(forest_ids(so.kids).contains(y));
                        lemma_below_child(m0, t, parent, old, so, y);
                        if s2.contains(y) {
                            let j = choose|j: int| 0 <= j < s2.len() && s2[j] == y;
                            let j0 = if j < i { j } else { j + 1 };
                            assert(s2[j] == ps[j0]);
                            assert(ps.contains(y));
                        }
                    }
                }
                let m2 = store@;
                assert(m2.live(parent));
                assert(m2.live(value));
                if s2.len() > 0 {
                    assert(s2.contains(s2[0]));
                    assert(s2[s2.len() - 1] == s2.last());
                    assert(s2.contains(s2.last()));
                    assert(m1.live(s2[0]));
                    assert(m1.live(s2.last()));
                }
                assert(crate::dom::append_ok(m2, parent, value));
            }
        },
        None => {},
    }
}

/// Place `value` at `path`, whose parent is the object `parent` of the document `t`.
#[verifier::spinoff_prover]
fn put_in_object(store: &mut SafeStore, parent: NodeId, child: &[u8], value: NodeId, cs: bool,
    Ghost(t): Ghost<Tree>, Ghost(object): Ghost<NodeId>, Ghost(path): Ghost<Seq<u8>>)
    requires
        doc_ok(old(store)@, t),
        tree_ids(t).contains(parent),
        loose(old(store)@, t, value),
        put_parent(old(store)@, object, path, cs) == Some(parent),
        put_token(path) == child@,
        spec_type_kind(old(store)@.nodes[parent].ty) == crate::types::OBJECT,
    ensures
        put_done(old(store)@, final(store)@, object, path, value, cs),
{
    let ghost m0 = store@;
    drop_member(store, parent, child, value, cs, Ghost(t));
    let ghost m1 = store@;
    crate::dom::add_item_to_object(store, parent, child, value, false);
    proof {
        assert(keyed_in(m1, store@, parent, value, child@));
        assert(put_parent(m0, object, path, cs).unwrap() == parent);
    }
}


/// The last step of a patch: put `value` where `path` points in the document `t` (the
/// parent is what the path before its last `/` leads to). Codes: 0 done; 9 no parent, or a
/// parent that is neither array nor object; 10 an index past the end; 11 a bad index.
/// On failure `value` is deleted.
#[verifier::spinoff_prover]
#[verifier::rlimit(100)]
fn put_value(store: &mut SafeStore, object: NodeId, path: &[u8], value: NodeId, cs: bool, Ghost(t): Ghost<Tree>) -> (r: i32)
    requires
        doc_ok(old(store)@, t),
        t.id == object,
        loose(old(store)@, t, value),
    ensures
        r == 0 || r == 9 || r == 10 || r == 11,
        put_result(old(store)@, final(store)@, object, path@, value, cs, r),
{
    let ghost m = store@;
    proof {
        crate::tree::lemma_tree_is(m, t, false);
        lemma_tree_contains(t, object);
    }
    let slash = match crate::patch::rposition_slash(path) {
        Some(k) => k,
        None => {
            proof { assert(put_code(m, object, path@, cs) == 9); }
            store.delete(Some(value));
            return 9;
        },
    };
    proof { crate::patch::lemma_last_slash(path@, path@.len() as int); }
    let n = path.len();
    let parent_path = crate::string::slice_range(path, 0, slash);
    let child_enc = crate::string::slice_range(path, slash + 1, n);
    let child = crate::pointer::decode_pointer(child_enc);
    proof {
        assert(put_token(path@) == child@);
    }
    let parent = match crate::utils::get_item_from_pointer(store, Some(object), parent_path, cs) {
        Some(p) => p,
        None => {
            proof { assert(put_code(m, object, path@, cs) == 9); }
            store.delete(Some(value));
            return 9;
        },
    };
    proof {
        assert(put_parent(m, object, path@, cs) == Some(parent));
        crate::utils::lemma_walk_in_tree(m, t, parent_path@, 0, cs);
        assert(tree_ids(t).contains(parent));
        assert(listed(m, parent) && keyed_walkable(m, parent));
        assert(parent != value);
        let ps = m.children(parent);
        crate::tree::lemma_chain_is(m, m.nodes[parent].child, ps);
        if ps.len() > 0 {
            assert(m.live(ps[0]));
            assert(ps[ps.len() - 1] == ps.last());
            assert(m.live(ps.last()));
        }
    }
    if crate::dom::is_array(store, Some(parent)) {
        if is_dash(&child) {
            crate::dom::add_item_to_array(store, parent, value);
            proof { assert(put_done(m, store@, object, path@, value, cs)); }
            return 0;
        }
        let index = match crate::pointer::decode_array_index(child.as_slice()) {
            Some(i) => i,
            None => {
                proof { assert(put_code(m, object, path@, cs) == 11); }
                store.delete(Some(value));
                return 11;
            },
        };
        if !crate::patch::insert_item_in_array_usize(store, parent, index, value) {
            proof { assert(put_code(m, object, path@, cs) == 10); }
            store.delete(Some(value));
            return 10;
        }
        proof { assert(put_done(m, store@, object, path@, value, cs)); }
        return 0;
    }
    if crate::dom::is_object(store, Some(parent)) {
        put_in_object(store, parent, child.as_slice(), value, cs, Ghost(t), Ghost(object), Ghost(path@));
        return 0;
    }
    proof { assert(put_code(m, object, path@, cs) == 9); }
    store.delete(Some(value));
    9
}

/// The store after the node that `path` names below `object` is unlinked from its parent
/// and deleted with everything below it; `None` when the path names no node.
pub open spec fn removed(m: StoreView, object: NodeId, path: Seq<u8>, cs: bool) -> Option<StoreView> {
    match crate::patch::path_target(m, m.tree_of(object, false), path, cs) {
        None => None,
        Some(pc) => Some(unlinked(m, pc.0, pc.1).after_delete(unlinked(m, pc.0, pc.1).forest(Some(pc.1), true))),
    }
}

/// A copy of the tree below `v` cannot be made: allocation fails, or the tree is too deep.
pub open spec fn copy_fails(m: StoreView, v: NodeId) -> bool {
    m.fail_allocs || !crate::dup::depth_ok(crate::dup::dup_source(m, v, true), 0)
}

/// Copying the tree below `src` and placing the copy at `path` took `m` to `m2` with code
/// `r`: `fail` (the store as it was) when no copy can be made, else the code of placing.
pub open spec fn copy_put(m: StoreView, m2: StoreView, object: NodeId, path: Seq<u8>, src: NodeId, cs: bool, r: i32, fail: i32) -> bool {
    if copy_fails(m, src) {
        r == fail && m2 == m
    } else {
        exists|md: StoreView, d: NodeId| #[trigger] crate::dup::dup_done(m, md, d, src, true)
            && put_result(md, m2, object, path, d, cs, r)
    }
}

/// The `value` member of the patch, copied and placed at `path`; 7 (nothing changed)
/// without one.
pub open spec fn value_put(m: StoreView, m2: StoreView, object: NodeId, patch: NodeId, path: Seq<u8>, cs: bool, r: i32) -> bool {
    match crate::patch::member(m, patch, crate::patch::value_name(), cs) {
        None => r == 7 && m2 == m,
        Some(v) => copy_put(m, m2, object, path, v, cs, r, 8),
    }
}

/// The bytes `from`.
pub open spec fn from_name() -> Seq<u8> {
    seq![102u8, 114, 111, 109]
}

/// The text of a string member of the patch (empty when its value string is absent);
/// `None` when the member is missing or not a string.
pub open spec fn string_member(m: StoreView, patch: NodeId, name: Seq<u8>, cs: bool) -> Option<Seq<u8>> {
    match crate::patch::member(m, patch, name, cs) {
        None => None,
        Some(x) => if spec_type_kind(m.nodes[x].ty) != crate::types::STRING {
            None
        } else {
            Some(match m.valuestring_of(x) { Some(b) => b, None => Seq::<u8>::empty() })
        },
    }
}

/// The store with the string that `x` holds as its value freed and unlinked from it.
pub open spec fn value_freed(m: StoreView, x: NodeId) -> StoreView {
    match m.nodes[x].valuestring {
        None => m,
        Some(s) => StoreView { nodes: m.nodes.insert(x, NodeData { valuestring: None, ..m.nodes[x] }), strings: m.strings.remove(s), ..m },
    }
}

/// The store with the key string of `x` freed and unlinked from it.
pub open spec fn key_freed(m: StoreView, x: NodeId) -> StoreView {
    match m.nodes[x].key {
        None => m,
        Some(s) => StoreView { nodes: m.nodes.insert(x, NodeData { key: None, ..m.nodes[x] }), strings: m.strings.remove(s), ..m },
    }
}

/// A removal of the whole document: the root becomes invalid, loses its link to its
/// children (which stay allocated), and its value string and key are freed.
pub open spec fn root_cleared(m: StoreView, x: NodeId) -> StoreView {
    key_freed(value_freed(m.with_node(x, NodeData { ty: crate::types::INVALID, child: None, ..m.nodes[x] }), x), x)
}

/// An add or replace of the whole document with the tree below `v`: 8 (nothing changed) when
/// no copy can be made; else the root takes over the copy (what it owned freed) and loses its
/// key.
pub open spec fn root_replaced(m: StoreView, m2: StoreView, x: NodeId, v: NodeId, r: i32) -> bool {
    if copy_fails(m, v) {
        r == 8 && m2 == m
    } else {
        r == 0 && exists|md: StoreView, d: NodeId| #[trigger] crate::dup::dup_done(m, md, d, v, true)
            && m2 == key_freed(crate::store::stolen(md, x, d), x)
    }
}

/// What an operation other than `test` does to the document below `object`, when the patch
/// has a string `path`: the code `r` it ends with and the store `m2` it leaves.
/// - remove: the node at `path` unlinked and deleted (13, nothing changed, when there is
///   none); an empty path clears the root.
/// - add: the `value` copied and placed at `path`; an empty path replaces the root.
/// - replace: the node at `path` removed as for remove, then the value placed as for add.
/// - move: the node at `from` unlinked and placed at `path` (4 without a string `from`, 5
///   when it names no node, nothing changed in either case).
/// - copy: the node at `from` copied and placed at `path` (4, 5 as for move; 6 when no
///   copy can be made).
pub open spec fn patch_applied(m: StoreView, m2: StoreView, object: NodeId, patch: NodeId, cs: bool, r: i32) -> bool {
    let op = crate::patch::patch_op(m, patch, cs);
    let path = string_member(m, patch, crate::patch::path_name(), cs).unwrap();
    let t = m.tree_of(object, false);
    if op == crate::patch::PatchOp::Remove {
        if path.len() == 0 {
            r == 0 && m2 == root_cleared(m, object)
        } else {
            match removed(m, object, path, cs) {
                None => r == 13 && m2 == m,
                Some(m1) => r == 0 && m2 == m1,
            }
        }
    } else if path.len() == 0 && (op == crate::patch::PatchOp::Add || op == crate::patch::PatchOp::Replace) {
        match crate::patch::member(m, patch, crate::patch::value_name(), cs) {
            None => r == 7 && m2 == m,
            Some(v) => root_replaced(m, m2, object, v, r),
        }
    } else if op == crate::patch::PatchOp::Add {
        value_put(m, m2, object, patch, path, cs, r)
    } else if op == crate::patch::PatchOp::Replace {
        match removed(m, object, path, cs) {
            None => r == 13 && m2 == m,
            Some(m1) => value_put(m1, m2, object, patch, path, cs, r),
        }
    } else {
        match string_member(m, patch, from_name(), cs) {
            None => r == 4 && m2 == m,
            Some(from) => if op == crate::patch::PatchOp::Move {
                match crate::patch::path_target(m, t, from, cs) {
                    None => r == 5 && m2 == m,
                    Some(pc) => put_result(unlinked(m, pc.0, pc.1), m2, object, path, pc.1, cs, r),
                }
            } else {
                match crate::utils::ptr_walk(m, Some(t), from, 0, cs) {
                    None => r == 5 && m2 == m,
                    Some(src) => copy_put(m, m2, object, path, src, cs, r, 6),
                }
            },
        }
    }
}

/// The statuses an operation can end with besides a bad path or name: `0` for success;
/// `1` for a test that failed; `4` (no string `from`) and `5` (nothing at `from`) for a move
/// or copy; `6` for a copy that could not be made; `7` (no `value`) and `8` (no copy of it)
/// for an add or replace; `9` (no parent), `10` (index out of range) and `11` (bad index)
/// when placing the value; `13` for nothing to remove or replace at the path.
pub open spec fn status_fits(r: i32, op: crate::patch::PatchOp) -> bool {
    match r {
        0 => op != crate::patch::PatchOp::Invalid,
        1 => op == crate::patch::PatchOp::Test,
        4 | 5 => op == crate::patch::PatchOp::Move || op == crate::patch::PatchOp::Copy,
        6 => op == crate::patch::PatchOp::Copy,
        7 | 8 => op == crate::patch::PatchOp::Add || op == crate::patch::PatchOp::Replace,
        9 | 10 | 11 => op == crate::patch::PatchOp::Add || op == crate::patch::PatchOp::Replace || op == crate::patch::PatchOp::Move || op == crate::patch::PatchOp::Copy,
        13 => op == crate::patch::PatchOp::Remove || op == crate::patch::PatchOp::Replace,
        _ => false,
    }
}

/// The outcome of a test: the value the path reaches in the document and the patch's
/// `value` are compared as `compare_json` does, `0` when equal; `1`, the store unchanged,
/// when either is missing.
pub open spec fn test_done<E: Fn(u64, u64) -> bool>(before: StoreView, after: StoreView, object: NodeId, patch: NodeId, cs: bool, e: E, r: i32) -> bool {
    let pi = crate::patch::member(before, patch, crate::patch::path_name(), cs).unwrap();
    let path = before.valuestring_of(pi).unwrap_or(Seq::empty());
    let target = crate::utils::ptr_walk(before, Some(before.tree_of(object, false)), path, 0, cs);
    let value = crate::patch::member(before, patch, crate::patch::value_name(), cs);
    match (target, value) {
        (Some(x), Some(y)) => crate::equal::json_compared(before, after, x, y, cs, e, r == 0) && (r == 0 || r == 1),
        _ => r == 1 && after == before,
    }
}

/// What applying a patch needs: the document below `object` and the patch below `patch`
/// are documents that share no node, and no string the document owns is held by another
/// node of either.
pub open spec fn patch_ready(m: StoreView, object: NodeId, patch: NodeId) -> bool {
    &&& m.has_tree(object, false)
    &&& m.has_tree(patch, false)
    &&& doc_ok(m, m.tree_of(object, false))
    &&& doc_ok(m, m.tree_of(patch, false))
    &&& disjoint(m.tree_of(object, false), m.tree_of(patch, false))
    &&& strs_unshared(m, m.tree_of(object, false), m.tree_of(patch, false))
}

/// The node `path_target` finds is a child of the parent it finds, a node of the document.
proof fn lemma_target_child(m: StoreView, t: Tree, path: Seq<u8>, cs: bool)
    requires
        doc_ok(m, t),
        crate::patch::path_target(m, t, path, cs) is Some,
    ensures
        ({
            let pc = crate::patch::path_target(m, t, path, cs).unwrap();
            &&& tree_ids(t).contains(pc.0)
            &&& m.children(pc.0).contains(pc.1)
        }),
{
    let k = crate::patch::last_slash(path, path.len() as int);
    crate::patch::lemma_last_slash(path, path.len() as int);
    let child = crate::pointer::decode_token(path.subrange(k + 1, path.len() as int));
    let p = crate::utils::ptr_walk(m, Some(t), path.subrange(0, k), 0, cs).unwrap();
    crate::utils::lemma_walk_in_tree(m, t, path.subrange(0, k), 0, cs);
    let s = m.children(p);
    if spec_type_kind(m.nodes[p].ty) == ARRAY {
        let ix = crate::pointer::array_index(child).unwrap();
        assert(s.contains(s[ix as int]));
    } else {
        crate::dom::lemma_first_stop(m, s, child, cs, 0);
        let j = crate::dom::first_stop(m, s, child, cs, 0);
        assert(s.contains(s[j]));
    }
}

/// Remove the subtree that `path` names from the document `t`: the rest is a document,
/// and the patch `u` is untouched.
#[verifier::spinoff_prover]
#[verifier::rlimit(60)]
fn remove_at(store: &mut SafeStore, object: NodeId, path: &[u8], cs: bool, Ghost(t): Ghost<Tree>, Ghost(u): Ghost<Tree>)
    -> (r: (bool, Ghost<Tree>))
    requires
        doc_ok(old(store)@, t),
        doc_ok(old(store)@, u),
        disjoint(t, u),
        strs_unshared(old(store)@, t, u),
        t.id == object,
        old(store)@.slots_ok(),
    ensures
        !r.0 ==> final(store)@ == old(store)@,
        r.0 == (removed(old(store)@, object, path@, cs) is Some),
        r.0 ==> final(store)@ == removed(old(store)@, object, path@, cs).unwrap(),
        r.0 ==> doc_ok(final(store)@, r.1@) && doc_ok(final(store)@, u) && disjoint(r.1@, u) && r.1@.id == object
            && final(store)@.slots_ok()
            && forall|y: NodeId| #[trigger] tree_ids(r.1@).contains(y) ==> tree_ids(t).contains(y),
{
    let ghost m = store@;
    proof { crate::tree::lemma_tree_is(m, t, false); }
    let old = match crate::patch::detach_path(store, object, path, cs) {
        Some(o) => o,
        None => return (false, Ghost(t)),
    };
    let ghost pc = crate::patch::path_target(m, t, path@, cs).unwrap();
    let ghost p = pc.0;
    proof {
        lemma_target_child(m, t, path@, cs);
        assert(old == pc.1);
        lemma_doc_after_unlink(m, t, u, p, old);
    }
    let ghost so = lemma_detached_deletable(m, t, p, old);
    let ghost m1 = store@;
    store.delete(Some(old));
    proof {
        let o = own(m1, so);
        let t2 = cut(t, old);
        let s = m.children(p);
        lemma_children_in(m, t, p);
        crate::tree::lemma_chain_is(m, m.nodes[p].child, s);
        let i = s.index_of(old);
        assert(s[i] == old);
        crate::surgery::lemma_unlink_frame(m, p, s, i);
        assert forall|y: NodeId| #[trigger] tree_ids(o).contains(y) implies !tree_ids(t2).contains(y) && !tree_ids(u).contains(y) by {
            assert(tree_ids(so).contains(y));
        }
        assert forall|x: NodeId, y: NodeId, k: crate::store::StrId|
            #![trigger tree_ids(o).contains(x), m1.node_strs(x).contains(k), m1.nodes[y]]
            tree_ids(o).contains(x) && m1.node_strs(x).contains(k) && (tree_ids(t2).contains(y) || tree_ids(u).contains(y))
            implies m1.nodes[y].key != Some(k) && m1.nodes[y].valuestring != Some(k) by {
            assert(tree_ids(so).contains(x));
            assert(tree_ids(t).contains(x));
            assert(m1.nodes[x].ty == m.nodes[x].ty && m1.nodes[x].key == m.nodes[x].key
                && m1.nodes[x].valuestring == m.nodes[x].valuestring);
            assert(m.node_strs(x) == m1.node_strs(x));
            assert(x != y);
            if tree_ids(t2).contains(y) {
                assert(tree_ids(t).contains(y));
            }
            assert(m.nodes[y].key != Some(k) && m.nodes[y].valuestring != Some(k));
            assert(m1.nodes[y].key == m.nodes[y].key && m1.nodes[y].valuestring == m.nodes[y].valuestring);
        }
        lemma_doc_after_delete(m1, t2, u, o);
    }
    (true, Ghost(cut(t, old)))
}

/// Detach the subtree that `path` names from the document `t`, to be put elsewhere.
#[verifier::spinoff_prover]
#[verifier::rlimit(40)]
fn move_from(store: &mut SafeStore, object: NodeId, path: &[u8], cs: bool, Ghost(t): Ghost<Tree>, Ghost(u): Ghost<Tree>)
    -> (r: Option<(NodeId, Ghost<Tree>)>)
    requires
        doc_ok(old(store)@, t),
        doc_ok(old(store)@, u),
        disjoint(t, u),
        t.id == object,
        old(store)@.slots_ok(),
    ensures
        r is None ==> final(store)@ == old(store)@,
        r is None <==> crate::patch::path_target(old(store)@, old(store)@.tree_of(object, false), path@, cs) is None,
        r matches Some(vt) ==> ({
            let pc = crate::patch::path_target(old(store)@, old(store)@.tree_of(object, false), path@, cs).unwrap();
            vt.0 == pc.1 && final(store)@ == unlinked(old(store)@, pc.0, pc.1)
        }),
        r matches Some(vt) ==> doc_ok(final(store)@, vt.1@) && doc_ok(final(store)@, u) && disjoint(vt.1@, u)
            && vt.1@.id == object && final(store)@.slots_ok() && loose(final(store)@, vt.1@, vt.0),
{
    let ghost m = store@;
    proof { crate::tree::lemma_tree_is(m, t, false); }
    let v = match crate::patch::detach_path(store, object, path, cs) {
        Some(o) => o,
        None => return None,
    };
    let ghost pc = crate::patch::path_target(m, t, path@, cs).unwrap();
    proof {
        lemma_target_child(m, t, path@, cs);
        lemma_doc_after_unlink(m, t, u, pc.0, v);
        let so = lemma_detached_deletable(m, t, pc.0, v);
        let m1 = store@;
        let o = own(m1, so);
        crate::tree::lemma_forest_single(m1, o);
        assert(tree_ids(so)[0] == v);
        assert(tree_ids(so).contains(v));
        assert forall|y: NodeId| #[trigger] forest_ids(m1.forest(Some(v), true)).contains(y) implies !tree_ids(cut(t, v)).contains(y) by {
            assert(tree_ids(o).contains(y));
            assert(tree_ids(so).contains(y));
        }
        assert(loose(m1, cut(t, v), v));
    }
    Some((v, Ghost(cut(t, v))))
}

/// A detached copy of `v`, a node of the document `t` or of the patch `u`; `None` (nothing
/// changed) when the copy cannot be made.
fn copy_node(store: &mut SafeStore, v: NodeId, Ghost(t): Ghost<Tree>, Ghost(u): Ghost<Tree>) -> (r: Option<NodeId>)
    requires
        doc_ok(old(store)@, t),
        doc_ok(old(store)@, u),
        tree_ids(t).contains(v) || tree_ids(u).contains(v),
    ensures
        r is None ==> final(store)@ == old(store)@,
        r is None <==> copy_fails(old(store)@, v),
        r matches Some(d) ==> crate::dup::dup_done(old(store)@, final(store)@, d, v, true),
        r matches Some(d) ==> doc_ok(final(store)@, t) && doc_ok(final(store)@, u) && final(store)@.slots_ok()
            && loose(final(store)@, t, d),
{
    let ghost m = store@;
    proof {
        let src = if tree_ids(t).contains(v) { t } else { u };
        lemma_sub_doc(m, src, v);
        let sv = m.tree_of(v, false);
        assert forall|id: NodeId| #[trigger] tree_ids(sv).contains(id) implies handles_live(m, id) by {
            assert(tree_ids(src).contains(id));
        }
        crate::utils::lemma_tree_ids_live(m, src, v);
    }
    let d = match crate::dup::duplicate(store, v, true) {
        Some(d) => d,
        None => return None,
    };
    proof {
        let md = store@;
        store.lemma_slots_ok();
        let t2 = choose|t2: Tree| #[trigger] crate::dup::duplicated(m, md, d, t2, v, true);
        assert(keeps(m, md));
        lemma_doc_keeps(m, md, t);
        lemma_doc_keeps(m, md, u);
        lemma_copy_deletable(m, md, d, v);
        assert forall|y: NodeId| #[trigger] forest_ids(md.forest(Some(d), true)).contains(y) implies !tree_ids(t).contains(y) by {
            if tree_ids(t).contains(y) {
                crate::utils::lemma_tree_ids_live(m, t, y);
            }
        }
        if tree_ids(t).contains(d) {
            crate::utils::lemma_tree_ids_live(m, t, d);
        }
    }
    Some(d)
}

/// A patch with an empty path that removes: the root is made invalid and loses its children
/// link, value string and key (the strings freed).
fn remove_root(store: &mut SafeStore, object: NodeId)
    requires
        old(store)@.live(object),
    ensures
        final(store)@ == root_cleared(old(store)@, object),
{
    let ghost m = store@;
    store.set_ty(object, crate::types::INVALID);
    store.set_child(object, None);
    proof {
        let w = m.with_node(object, NodeData { ty: crate::types::INVALID, child: None, ..m.nodes[object] });
        assert(store@.nodes =~= w.nodes);
        assert(store@ == w);
    }
    let ghost m1 = store@;
    match store.valuestring_id(object) {
        Some(s) => {
            store.set_valuestring_id(object, None);
            store.free_str(s);
            proof { assert(store@.nodes =~= value_freed(m1, object).nodes); }
        },
        None => {},
    }
    proof { assert(store@ == value_freed(m1, object)); }
    let ghost m2 = store@;
    match store.key_id(object) {
        Some(s) => {
            store.set_key_id(object, None);
            store.free_str(s);
            proof { assert(store@.nodes =~= key_freed(m2, object).nodes); }
        },
        None => {},
    }
    proof { assert(store@ == key_freed(m2, object)); }
}

/// A patch with an empty path that adds or replaces: the root takes a copy of the value
/// (what it owned freed) and loses its key. 8 when no copy can be made, else 0.
fn replace_root(store: &mut SafeStore, object: NodeId, v: NodeId, Ghost(t): Ghost<Tree>, Ghost(u): Ghost<Tree>) -> (r: i32)
    requires
        doc_ok(old(store)@, t),
        doc_ok(old(store)@, u),
        t.id == object,
        tree_ids(u).contains(v),
    ensures
        r == 0 || r == 8,
        root_replaced(old(store)@, final(store)@, object, v, r),
{
    let d = match copy_node(store, v, Ghost(t), Ghost(u)) {
        Some(d) => d,
        None => return 8,
    };
    proof {
        let md = store@;
        lemma_kids_deletable(md, t);
        lemma_tree_contains(t, object);
        crate::utils::lemma_tree_ids_live(md, t, object);
        let f = md.forest(md.nodes[object].child, true);
        assert(!forest_ids(f).contains(d));
    }
    store.steal_into(object, d);
    proof {
        assert(store@.live(object));
    }
    match store.key_id(object) {
        Some(s) => {
            store.set_key_id(object, None);
            store.free_str(s);
        },
        None => {},
    }
    0
}

/// Apply one patch object to the document below `object`. Codes: 0
/// done (a test that held); 1 a test that failed; 2 no string `path`; 3 an unknown `op`;
/// 4 no string `from`; 5 nothing at `from`; 6 or 8 no copy could be made; 7 no `value`;
/// 9 no parent at `path`, or one that is neither array nor object; 10 an index past the
/// end; 11 a bad index; 13 nothing at `path` to remove or replace. What each operation
/// leaves in the store, and on which inputs each code comes, is `patch_applied` (and
/// `test_done` for a test).
#[verifier::spinoff_prover]
#[verifier::rlimit(80)]
pub fn apply_patch<E: Fn(u64, u64) -> bool>(store: &mut SafeStore, object: NodeId, patch: NodeId, case_sensitive: bool, e: &E)
    -> (r: i32)
    requires
        patch_ready(old(store)@, object, patch),
        crate::compare::eq_ok(*e),
    ensures
        0 <= r <= 13 && r != 12,
        r == 2 <==> (match crate::patch::member(old(store)@, patch, crate::patch::path_name(), case_sensitive) {
            None => true,
            Some(pi) => spec_type_kind(old(store)@.nodes[pi].ty) != crate::types::STRING,
        }),
        r == 2 ==> final(store)@ == old(store)@,
        r != 2 ==> (r == 3 <==> crate::patch::patch_op(old(store)@, patch, case_sensitive) == crate::patch::PatchOp::Invalid),
        r == 3 ==> final(store)@ == old(store)@,
        r == 2 || r == 3 || status_fits(r, crate::patch::patch_op(old(store)@, patch, case_sensitive)),
        r != 2 && crate::patch::patch_op(old(store)@, patch, case_sensitive) == crate::patch::PatchOp::Test
            ==> test_done(old(store)@, final(store)@, object, patch, case_sensitive, *e, r),        r != 2 && crate::patch::patch_op(old(store)@, patch, case_sensitive) != crate::patch::PatchOp::Invalid
            && crate::patch::patch_op(old(store)@, patch, case_sensitive) != crate::patch::PatchOp::Test
            ==> patch_applied(old(store)@, final(store)@, object, patch, case_sensitive, r),
{
    let ghost m = store@;
    let ghost t = m.tree_of(object, false);
    let ghost u = m.tree_of(patch, false);
    proof {
        crate::tree::lemma_tree_is(m, t, false);
        crate::tree::lemma_tree_is(m, u, false);
        store.lemma_slots_ok();
        lemma_tree_contains(u, patch);
        lemma_tree_contains(t, object);
        assert(tree_ids(u)[0] == patch);
        assert(tree_ids(t)[0] == object);
        lemma_children_in(m, u, patch);
        assert forall|i: int| 0 <= i < m.children(patch).len() implies m.str_ok(m.nodes[#[trigger] m.children(patch)[i]].valuestring) by {
            assert(m.children(patch).contains(m.children(patch)[i]));
        }
    }
    let path_key: Vec<u8> = vec![112u8, 97, 116, 104];
    proof { assert(path_key@ == crate::patch::path_name()); }
    let path_item = match crate::patch::find_member(store, patch, &path_key, case_sensitive) {
        Some(pi) => pi,
        None => return 2,
    };
    proof {
        assert(m.children(patch).contains(path_item));
        assert(tree_ids(u).contains(path_item));
        crate::utils::lemma_tree_ids_live(m, u, path_item);
    }
    if !crate::dom::is_string(store, Some(path_item)) {
        return 2;
    }
    let path: Vec<u8> = match crate::store::valuestring_owned(store, path_item) {
        Some(v) => v,
        None => Vec::new(),
    };
    let opcode = crate::patch::decode_patch_operation(store, patch, case_sensitive);
    if opcode == crate::patch::PatchOp::Invalid {
        return 3;
    }
    let value_key: Vec<u8> = vec![118u8, 97, 108, 117, 101];
    proof { assert(value_key@ == crate::patch::value_name()); }
    if opcode == crate::patch::PatchOp::Test {
        let target = crate::utils::get_item_from_pointer(store, Some(object), path.as_slice(), case_sensitive);
        let value = crate::patch::find_member(store, patch, &value_key, case_sensitive);
        proof {
            if target is Some && value is Some {
                let x = target.unwrap();
                let y = value.unwrap();
                crate::utils::lemma_walk_in_tree(m, t, path@, 0, case_sensitive);
                assert(m.children(patch).contains(y));
                lemma_sub_doc(m, t, x);
                lemma_sub_doc(m, u, y);
                assert(disjoint(m.tree_of(x, false), m.tree_of(y, false))) by {
                    assert forall|z: NodeId| #[trigger] tree_ids(m.tree_of(x, false)).contains(z)
                        implies !tree_ids(m.tree_of(y, false)).contains(z) by {
                        assert(tree_ids(t).contains(z));
                    }
                }
            }
        }
        return if crate::equal::compare_json(store, target, value, case_sensitive, e) { 0 } else { 1 };
    }
    if path.len() == 0 {
        if opcode == crate::patch::PatchOp::Remove {
            remove_root(store, object);
            return 0;
        }
        if opcode == crate::patch::PatchOp::Replace || opcode == crate::patch::PatchOp::Add {
            let v = match crate::patch::find_member(store, patch, &value_key, case_sensitive) {
                Some(v) => v,
                None => return 7,
            };
            proof { assert(m.children(patch).contains(v)); }
            return replace_root(store, object, v, Ghost(t), Ghost(u));
        }
    }
    let ghost mut cur = t;
    if opcode == crate::patch::PatchOp::Remove || opcode == crate::patch::PatchOp::Replace {
        let (found, Ghost(t2)) = remove_at(store, object, path.as_slice(), case_sensitive, Ghost(t), Ghost(u));
        if !found {
            return 13;
        }
        if opcode == crate::patch::PatchOp::Remove {
            return 0;
        }
        proof { cur = t2; }
    }
    let ghost m1 = store@;
    let (value, Ghost(t3)) = if opcode == crate::patch::PatchOp::Move || opcode == crate::patch::PatchOp::Copy {
        let from_key: Vec<u8> = vec![102u8, 114, 111, 109];
        let from = match crate::patch::find_member(store, patch, &from_key, case_sensitive) {
            Some(f) => f,
            None => return 4,
        };
        proof {
            assert(m.children(patch).contains(from));
            assert(tree_ids(u).contains(from));
            crate::utils::lemma_tree_ids_live(m, u, from);
        }
        if !crate::dom::is_string(store, Some(from)) {
            return 4;
        }
        let from_path: Vec<u8> = match crate::store::valuestring_owned(store, from) {
            Some(v) => v,
            None => Vec::new(),
        };
        if opcode == crate::patch::PatchOp::Move {
            match move_from(store, object, from_path.as_slice(), case_sensitive, Ghost(t), Ghost(u)) {
                Some(vt) => vt,
                None => return 5,
            }
        } else {
            let src = match crate::utils::get_item_from_pointer(store, Some(object), from_path.as_slice(), case_sensitive) {
                Some(x) => x,
                None => return 5,
            };
            proof { crate::utils::lemma_walk_in_tree(m, t, from_path@, 0, case_sensitive); }
            match copy_node(store, src, Ghost(t), Ghost(u)) {
                Some(d) => (d, Ghost(t)),
                None => return 6,
            }
        }
    } else {
        proof {
            lemma_tree_contains(u, patch);
            lemma_children_in(m1, u, patch);
        }
        let v = match crate::patch::find_member(store, patch, &value_key, case_sensitive) {
            Some(v) => v,
            None => return 7,
        };
        proof { assert(m1.children(patch).contains(v)); }
        match copy_node(store, v, Ghost(cur), Ghost(u)) {
            Some(d) => (d, Ghost(cur)),
            None => return 8,
        }
    };
    put_value(store, object, path.as_slice(), value, case_sensitive, Ghost(t3))
}

} // verus!
