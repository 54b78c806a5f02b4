//! Structural equality that sorts objects first: members are
//! compared pairwise in key order.
use vstd::prelude::*;
use crate::store::{NodeId, NodeData, SafeStore, StoreView};
use crate::tree::{Tree, tops, tree_ids, forest_ids};
use crate::types::{spec_type_kind, spec_bytes_eq_case, NUMBER, STRING, ARRAY, OBJECT};
use crate::compare::{eq_ok, eq_of, tsz, lemma_kid_smaller, tree_ready, lemma_ready_kid, lemma_ready_root};
use crate::utils::sort_object;

verus! {

/// Whether `ta` and `tb` hold equal values in `m`, comparing array elements and object
/// members pairwise in their order (object members by key first).
pub open spec fn jeq<E: Fn(u64, u64) -> bool>(m: StoreView, ta: Tree, tb: Tree, cs: bool, e: E) -> bool
    decreases tsz(ta) + tsz(tb), 1nat, 0nat,
{
    let da = m.nodes[ta.id];
    let db = m.nodes[tb.id];
    let k = spec_type_kind(da.ty);
    if k != spec_type_kind(db.ty) {
        false
    } else if k == NUMBER {
        da.valueint == db.valueint && eq_of(e, da.valuedouble, db.valuedouble)
    } else if k == STRING {
        match (m.str_bytes(da.valuestring), m.str_bytes(db.valuestring)) {
            (Some(x), Some(y)) => x == y,
            _ => false,
        }
    } else if k == ARRAY {
        jeq_kids(m, ta, tb, 0, false, cs, e)
    } else if k == OBJECT {
        jeq_kids(m, ta, tb, 0, true, cs, e)
    } else {
        true
    }
}

/// What `jeq` says of two leaves, from their fields alone: values of different kinds differ;
/// two numbers are equal exactly when their integer parts agree and the comparison `e`
/// holds on their doubles; two strings exactly when both are present and byte for byte
/// equal.
pub proof fn law_jeq_leaves<E: Fn(u64, u64) -> bool>(m: StoreView, ta: Tree, tb: Tree, cs: bool, e: E)
    ensures
        spec_type_kind(m.nodes[ta.id].ty) != spec_type_kind(m.nodes[tb.id].ty) ==> !jeq(m, ta, tb, cs, e),
        spec_type_kind(m.nodes[ta.id].ty) == NUMBER && spec_type_kind(m.nodes[tb.id].ty) == NUMBER
            ==> (jeq(m, ta, tb, cs, e) <==> (m.nodes[ta.id].valueint == m.nodes[tb.id].valueint
                && e.ensures((m.nodes[ta.id].valuedouble, m.nodes[tb.id].valuedouble), true))),
        spec_type_kind(m.nodes[ta.id].ty) == STRING && spec_type_kind(m.nodes[tb.id].ty) == STRING
            ==> (jeq(m, ta, tb, cs, e) <==> (m.valuestring_of(ta.id) is Some && m.valuestring_of(ta.id) == m.valuestring_of(tb.id))),
{
}

/// The children of `ta` and `tb` from index `i` on: as many on both sides, each pair
/// equal (and, when `keyed`, with matching keys).
pub open spec fn jeq_kids<E: Fn(u64, u64) -> bool>(m: StoreView, ta: Tree, tb: Tree, i: int, keyed: bool, cs: bool, e: E) -> bool
    decreases tsz(ta) + tsz(tb), 0nat, ta.kids.len() - i,
{
    if i < 0 {
        false
    } else if i >= ta.kids.len() || i >= tb.kids.len() {
        i >= ta.kids.len() && i >= tb.kids.len()
    } else {
        proof {
            lemma_kid_smaller(ta, i);
            lemma_kid_smaller(tb, i);
        }
        (keyed ==> spec_bytes_eq_case(m.key_of(ta.kids[i].id), m.key_of(tb.kids[i].id), cs))
            && jeq(m, ta.kids[i], tb.kids[i], cs, e)
            && jeq_kids(m, ta, tb, i + 1, keyed, cs, e)
    }
}

/// The pair `x`, `y` compares equal (with matching keys, when `keyed`).
pub open spec fn pair_eq<E: Fn(u64, u64) -> bool>(m: StoreView, x: Tree, y: Tree, keyed: bool, cs: bool, e: E) -> bool {
    (keyed ==> spec_bytes_eq_case(m.key_of(x.id), m.key_of(y.id), cs)) && jeq(m, x, y, cs, e)
}

/// `m1` holds the nodes of `ids` as `m2` does, and the same strings.
pub open spec fn agree_ids(m1: StoreView, m2: StoreView, ids: Seq<NodeId>) -> bool {
    &&& forall|x: NodeId| #[trigger] ids.contains(x) ==> m1.nodes[x] == m2.nodes[x]
    &&& m1.strings == m2.strings
}

proof fn lemma_agree_kid(m1: StoreView, m2: StoreView, t: Tree, i: int)
    requires
        agree_ids(m1, m2, tree_ids(t)),
        0 <= i < t.kids.len(),
    ensures
        agree_ids(m1, m2, tree_ids(t.kids[i])),
{
    crate::tree::lemma_kids_in_ids(t.kids, i);
    assert(tree_ids(t) == seq![t.id] + forest_ids(t.kids));
    assert forall|x: NodeId| #[trigger] tree_ids(t.kids[i]).contains(x) implies m1.nodes[x] == m2.nodes[x] by {
        assert(forest_ids(t.kids).contains(x));
        let j = choose|j: int| 0 <= j < forest_ids(t.kids).len() && forest_ids(t.kids)[j] == x;
        assert(tree_ids(t)[j + 1] == x);
        assert(tree_ids(t).contains(x));
    }
}

/// The comparison reads only the nodes of the two trees and the strings.
pub proof fn lemma_jeq_frame<E: Fn(u64, u64) -> bool>(m1: StoreView, m2: StoreView, ta: Tree, tb: Tree, cs: bool, e: E)
    requires
        agree_ids(m1, m2, tree_ids(ta)),
        agree_ids(m1, m2, tree_ids(tb)),
    ensures
        jeq(m1, ta, tb, cs, e) == jeq(m2, ta, tb, cs, e),
    decreases tsz(ta) + tsz(tb), 1nat, 0nat,
{
    assert(tree_ids(ta)[0] == ta.id);
    assert(tree_ids(tb)[0] == tb.id);
    assert(tree_ids(ta).contains(ta.id));
    assert(tree_ids(tb).contains(tb.id));
    lemma_jeq_kids_frame(m1, m2, ta, tb, 0, false, cs, e);
    lemma_jeq_kids_frame(m1, m2, ta, tb, 0, true, cs, e);
}

pub proof fn lemma_jeq_kids_frame<E: Fn(u64, u64) -> bool>(m1: StoreView, m2: StoreView, ta: Tree, tb: Tree, i: int, keyed: bool, cs: bool, e: E)
    requires
        agree_ids(m1, m2, tree_ids(ta)),
        agree_ids(m1, m2, tree_ids(tb)),
    ensures
        jeq_kids(m1, ta, tb, i, keyed, cs, e) == jeq_kids(m2, ta, tb, i, keyed, cs, e),
    decreases tsz(ta) + tsz(tb), 0nat, ta.kids.len() - i,
{
    if 0 <= i && i < ta.kids.len() && i < tb.kids.len() {
        lemma_kid_smaller(ta, i);
        lemma_kid_smaller(tb, i);
        lemma_agree_kid(m1, m2, ta, i);
        lemma_agree_kid(m1, m2, tb, i);
        assert(tree_ids(ta.kids[i])[0] == ta.kids[i].id);
        assert(tree_ids(tb.kids[i])[0] == tb.kids[i].id);
        assert(tree_ids(ta.kids[i]).contains(ta.kids[i].id));
        assert(tree_ids(tb.kids[i]).contains(tb.kids[i].id));
        lemma_jeq_frame(m1, m2, ta.kids[i], tb.kids[i], cs, e);
        lemma_jeq_kids_frame(m1, m2, ta, tb, i + 1, keyed, cs, e);
    }
}

/// No node occurs twice in `t`: the root is in none of the subtrees, which are pairwise
/// disjoint and have no repeats themselves.
pub open spec fn nd(t: Tree) -> bool
    decreases t,
{
    &&& forall|i: int| 0 <= i < t.kids.len() ==> nd(#[trigger] t.kids[i])
    &&& forall|i: int| 0 <= i < t.kids.len() ==> !tree_ids(#[trigger] t.kids[i]).contains(t.id)
    &&& forall|i: int, j: int| 0 <= i < j < t.kids.len() ==> disjoint(#[trigger] t.kids[i], #[trigger] t.kids[j])
}

/// No node is in both trees.
pub open spec fn disjoint(ta: Tree, tb: Tree) -> bool {
    forall|x: NodeId| #[trigger] tree_ids(ta).contains(x) ==> !tree_ids(tb).contains(x)
}

/// A node of a forest is a node of one of its trees.
pub proof fn lemma_forest_contains(ts: Seq<Tree>, x: NodeId)
    ensures
        forest_ids(ts).contains(x) <==> exists|i: int| 0 <= i < ts.len() && #[trigger] tree_ids(ts[i]).contains(x),
    decreases ts,
{
    if ts.len() > 0 {
        let rest = ts.drop_first();
        lemma_forest_contains(rest, x);
        assert(forest_ids(ts) == tree_ids(ts[0]) + forest_ids(rest));
        if forest_ids(ts).contains(x) {
            let k = choose|k: int| 0 <= k < forest_ids(ts).len() && forest_ids(ts)[k] == x;
            if k < tree_ids(ts[0]).len() {
                assert(tree_ids(ts[0])[k] == x);
                assert(tree_ids(ts[0]).contains(x));
            } else {
                assert(forest_ids(rest)[k - tree_ids(ts[0]).len()] == x);
                assert(forest_ids(rest).contains(x));
                let i = choose|i: int| 0 <= i < rest.len() && #[trigger] tree_ids(rest[i]).contains(x);
                assert(rest[i] == ts[i + 1]);
            }
        }
        if exists|i: int| 0 <= i < ts.len() && #[trigger] tree_ids(ts[i]).contains(x) {
            let i = choose|i: int| 0 <= i < ts.len() && #[trigger] tree_ids(ts[i]).contains(x);
            let k = choose|k: int| 0 <= k < tree_ids(ts[i]).len() && tree_ids(ts[i])[k] == x;
            if i == 0 {
                assert(forest_ids(ts)[k] == x);
            } else {
                assert(rest[i - 1] == ts[i]);
                assert(forest_ids(rest).contains(x));
                let k2 = choose|k2: int| 0 <= k2 < forest_ids(rest).len() && forest_ids(rest)[k2] == x;
                assert(forest_ids(ts)[tree_ids(ts[0]).len() + k2] == x);
            }
        }
    } else {
        assert(forest_ids(ts) =~= Seq::<NodeId>::empty());
    }
}

/// A node of a tree is its root or a node of one of its subtrees.
pub proof fn lemma_tree_contains(t: Tree, x: NodeId)
    ensures
        tree_ids(t).contains(x) <==> (x == t.id || exists|i: int| 0 <= i < t.kids.len() && #[trigger] tree_ids(t.kids[i]).contains(x)),
{
    lemma_forest_contains(t.kids, x);
    assert(tree_ids(t) == seq![t.id] + forest_ids(t.kids));
    if tree_ids(t).contains(x) && x != t.id {
        let k = choose|k: int| 0 <= k < tree_ids(t).len() && tree_ids(t)[k] == x;
        assert(forest_ids(t.kids)[k - 1] == x);
        assert(forest_ids(t.kids).contains(x));
    }
    if x == t.id {
        assert(tree_ids(t)[0] == x);
    }
    if forest_ids(t.kids).contains(x) {
        let k = choose|k: int| 0 <= k < forest_ids(t.kids).len() && forest_ids(t.kids)[k] == x;
        assert(tree_ids(t)[k + 1] == x);
    }
}

/// The fields of a node other than its links.
pub open spec fn same_data(d1: NodeData, d2: NodeData) -> bool {
    d1.ty == d2.ty && d1.valuestring == d2.valuestring && d1.valueint == d2.valueint
        && d1.valuedouble == d2.valuedouble && d1.key == d2.key
}

/// What the sorting comparison needs of a tree.
pub open spec fn cj_ready(m: StoreView, t: Tree) -> bool {
    tree_ready(m, t) && nd(t)
}

/// The sorting comparison took `m0` to `m1`, leaving the trees `ta`, `tb` as `ta1`, `tb1`:
/// the same nodes, still ready; only the links of their nodes changed, not those of the roots.
pub open spec fn cj_post(m0: StoreView, m1: StoreView, ta: Tree, tb: Tree, ta1: Tree, tb1: Tree) -> bool {
    &&& ta1.id == ta.id
    &&& tb1.id == tb.id
    &&& forall|x: NodeId| #[trigger] tree_ids(ta1).contains(x) == tree_ids(ta).contains(x)
    &&& forall|x: NodeId| #[trigger] tree_ids(tb1).contains(x) == tree_ids(tb).contains(x)
    &&& cj_ready(m1, ta1)
    &&& cj_ready(m1, tb1)
    &&& disjoint(ta1, tb1)
    &&& m1.nodes.dom() == m0.nodes.dom()
    &&& forall|x: NodeId| m0.nodes.contains_key(x) && !tree_ids(ta).contains(x) && !tree_ids(tb).contains(x)
        ==> #[trigger] m1.nodes[x] == m0.nodes[x]
    &&& forall|x: NodeId| #[trigger] m1.nodes.contains_key(x) ==> same_data(m1.nodes[x], m0.nodes[x])
    &&& m1.nodes[ta.id].next == m0.nodes[ta.id].next
    &&& m1.nodes[ta.id].prev == m0.nodes[ta.id].prev
    &&& m1.nodes[tb.id].next == m0.nodes[tb.id].next
    &&& m1.nodes[tb.id].prev == m0.nodes[tb.id].prev
    &&& m1.strings == m0.strings
    &&& m1.str_slots == m0.str_slots
    &&& m1.fail_allocs == m0.fail_allocs
}

/// Putting in place of the `i`-th subtree of `t` a tree `x1` over the same nodes, ready in
/// `m2`, where `m2` holds every other node of `t` as `m1` does and keeps the root links of
/// `x1`, gives a tree ready in `m2`.
#[verifier::spinoff_prover]
#[verifier::rlimit(60)]
pub proof fn lemma_swap_kid(m1: StoreView, m2: StoreView, t: Tree, i: int, x1: Tree)
    requires
        cj_ready(m1, t),
        0 <= i < t.kids.len(),
        x1.id == t.kids[i].id,
        forall|x: NodeId| #[trigger] tree_ids(x1).contains(x) == tree_ids(t.kids[i]).contains(x),
        cj_ready(m2, x1),
        forall|x: NodeId| #[trigger] m1.nodes.contains_key(x) ==> m2.nodes.contains_key(x),
        m2.str_slots >= m1.str_slots,
        forall|x: NodeId| tree_ids(t).contains(x) && !tree_ids(t.kids[i]).contains(x) ==> #[trigger] m2.nodes[x] == m1.nodes[x],
        m2.nodes[x1.id].next == m1.nodes[x1.id].next,
    ensures
        cj_ready(m2, Tree { id: t.id, kids: t.kids.update(i, x1) }),
        forall|x: NodeId| #[trigger] tree_ids(Tree { id: t.id, kids: t.kids.update(i, x1) }).contains(x) == tree_ids(t).contains(x),
{
    let ks = t.kids;
    let ks2 = ks.update(i, x1);
    let t2 = Tree { id: t.id, kids: ks2 };
    assert(tree_ids(t)[0] == t.id);
    // membership
    assert forall|x: NodeId| #[trigger] tree_ids(t2).contains(x) == tree_ids(t).contains(x) by {
        lemma_tree_contains(t, x);
        lemma_tree_contains(t2, x);
        if tree_ids(t).contains(x) && x != t.id {
            let k = choose|k: int| 0 <= k < ks.len() && #[trigger] tree_ids(ks[k]).contains(x);
            if k == i { assert(tree_ids(ks2[k]).contains(x)); } else { assert(ks2[k] == ks[k]); }
        }
        if tree_ids(t2).contains(x) && x != t.id {
            let k = choose|k: int| 0 <= k < ks2.len() && #[trigger] tree_ids(ks2[k]).contains(x);
            if k == i { assert(tree_ids(ks[k]).contains(x)); } else { assert(ks2[k] == ks[k]); }
        }
    }
    // the root and the other subtrees are untouched
    assert(!tree_ids(ks[i]).contains(t.id));
    assert(m2.nodes[t.id] == m1.nodes[t.id]);
    assert forall|k: int| 0 <= k < ks.len() && k != i implies m1.agrees_on(m2, tree_ids(#[trigger] ks[k]).to_set()) by {
        assert forall|x: NodeId| tree_ids(ks[k]).to_set().contains(x) implies (m1.live(x) == m2.live(x)
            && (m1.live(x) ==> m1.nodes[x] == m2.nodes[x])) by {
            lemma_tree_contains(t, x);
            assert(tree_ids(ks[k]).contains(x));
            crate::utils::lemma_tree_ids_live(m1, t, x);
            if k < i { assert(disjoint(ks[k], ks[i])); } else { assert(disjoint(ks[i], ks[k])); }
        }
    }
    assert(tops(ks2) =~= tops(ks)) by {
        assert forall|k: int| 0 <= k < ks.len() implies tops(ks2)[k] == tops(ks)[k] by {}
    }
    lemma_ready_root(m1, t);
    let c = m1.nodes[t.id].child;
    let s = tops(ks);
    assert(m1.is_chain(c, s));
    assert forall|k: int| 0 <= k < s.len() implies m2.nodes[#[trigger] s[k]].next == m1.nodes[s[k]].next && m2.live(s[k]) by {
        assert(s[k] == ks[k].id);
        assert(tree_ids(ks[k])[0] == ks[k].id);
        assert(tree_ids(ks[k]).contains(ks[k].id));
        if k != i {
            assert(m1.agrees_on(m2, tree_ids(ks[k]).to_set()));
            assert(tree_ids(ks[k]).to_set().contains(ks[k].id));
        }
    }
    if s.len() > 0 {
        assert(s[s.len() - 1] == s.last());
    }
    assert(m2.is_chain(c, tops(ks2)));
    assert forall|k: int| 0 <= k < ks2.len() implies m2.tree_valid(#[trigger] ks2[k], false) by {
        if k != i {
            assert(ks2[k] == ks[k]);
            assert(m1.tree_valid(ks[k], false));
            crate::tree::lemma_tree_frame(m1, m2, ks[k], false);
        }
    }
    assert(m2.tree_valid(t2, false));
    // string handles
    assert forall|id: NodeId| #[trigger] tree_ids(t2).contains(id) implies m2.str_ok(m2.nodes[id].valuestring)
        && m2.str_ok(m2.nodes[id].key) by {
        assert(tree_ids(t).contains(id));
        crate::utils::lemma_tree_ids_live(m1, t, id);
        if tree_ids(x1).contains(id) {
            crate::utils::lemma_tree_ids_live(m2, x1, id);
        } else {
            assert(!tree_ids(ks[i]).contains(id));
            assert(m2.nodes[id] == m1.nodes[id]);
        }
    }
    // no repeats
    assert forall|k: int| 0 <= k < ks2.len() implies nd(#[trigger] ks2[k]) by {
        if k != i { assert(ks2[k] == ks[k]); }
    }
    assert forall|k: int| 0 <= k < ks2.len() implies !tree_ids(#[trigger] ks2[k]).contains(t.id) by {
        if k != i { assert(ks2[k] == ks[k]); }
    }
    assert forall|k: int, j: int| 0 <= k < j < ks2.len() implies disjoint(#[trigger] ks2[k], #[trigger] ks2[j]) by {
        assert(disjoint(ks[k], ks[j]));
        if k == i {
            assert(ks2[j] == ks[j]);
        } else if j == i {
            assert(ks2[k] == ks[k]);
        } else {
            assert(ks2[k] == ks[k]);
            assert(ks2[j] == ks[j]);
        }
    }
    assert(nd(t2));
}

/// One more pair of children compared: the trees with the pair's new subtrees in place
/// are where the comparison of the parents has got to.
#[verifier::spinoff_prover]
#[verifier::rlimit(60)]
pub proof fn lemma_post_step(
    m0: StoreView,
    m1: StoreView,
    m2: StoreView,
    ta: Tree,
    tb: Tree,
    ka: Seq<Tree>,
    kb: Seq<Tree>,
    i: int,
    x1: Tree,
    y1: Tree,
)
    requires
        cj_post(m0, m1, ta, tb, Tree { id: ta.id, kids: ka }, Tree { id: tb.id, kids: kb }),
        0 <= i < ka.len(),
        i < kb.len(),
        cj_post(m1, m2, ka[i], kb[i], x1, y1),
    ensures
        cj_post(m0, m2, ta, tb, Tree { id: ta.id, kids: ka.update(i, x1) }, Tree { id: tb.id, kids: kb.update(i, y1) }),
        forall|j: int| 0 <= j < ka.len() && j != i ==> agree_ids(m1, m2, tree_ids(#[trigger] ka[j])),
        forall|j: int| 0 <= j < kb.len() && j != i ==> agree_ids(m1, m2, tree_ids(#[trigger] kb[j])),
{
    let a1 = Tree { id: ta.id, kids: ka };
    let b1 = Tree { id: tb.id, kids: kb };
    let a2 = Tree { id: ta.id, kids: ka.update(i, x1) };
    let b2 = Tree { id: tb.id, kids: kb.update(i, y1) };
    lemma_tree_contains(a1, ta.id);
    lemma_tree_contains(b1, tb.id);
    // the pair's nodes are nodes of the parents' trees
    assert forall|x: NodeId| #[trigger] tree_ids(ka[i]).contains(x) implies tree_ids(a1).contains(x) && !tree_ids(b1).contains(x) by {
        lemma_tree_contains(a1, x);
    }
    assert forall|x: NodeId| #[trigger] tree_ids(kb[i]).contains(x) implies tree_ids(b1).contains(x) && !tree_ids(a1).contains(x) by {
        lemma_tree_contains(b1, x);
    }
    assert forall|x: NodeId| tree_ids(a1).contains(x) && !tree_ids(ka[i]).contains(x) implies #[trigger] m2.nodes[x] == m1.nodes[x] by {
        crate::utils::lemma_tree_ids_live(m1, a1, x);
        if tree_ids(kb[i]).contains(x) {
            lemma_tree_contains(b1, x);
        }
    }
    assert forall|x: NodeId| tree_ids(b1).contains(x) && !tree_ids(kb[i]).contains(x) implies #[trigger] m2.nodes[x] == m1.nodes[x] by {
        crate::utils::lemma_tree_ids_live(m1, b1, x);
        if tree_ids(ka[i]).contains(x) {
            lemma_tree_contains(a1, x);
        }
    }
    lemma_swap_kid(m1, m2, a1, i, x1);
    lemma_swap_kid(m1, m2, b1, i, y1);
    assert forall|j: int| 0 <= j < ka.len() && j != i implies agree_ids(m1, m2, tree_ids(#[trigger] ka[j])) by {
        assert forall|x: NodeId| #[trigger] tree_ids(ka[j]).contains(x) implies m1.nodes[x] == m2.nodes[x] by {
            lemma_tree_contains(a1, x);
            if j < i { assert(disjoint(ka[j], ka[i])); } else { assert(disjoint(ka[i], ka[j])); }
        }
    }
    assert forall|j: int| 0 <= j < kb.len() && j != i implies agree_ids(m1, m2, tree_ids(#[trigger] kb[j])) by {
        assert forall|x: NodeId| #[trigger] tree_ids(kb[j]).contains(x) implies m1.nodes[x] == m2.nodes[x] by {
            lemma_tree_contains(b1, x);
            if j < i { assert(disjoint(kb[j], kb[i])); } else { assert(disjoint(kb[i], kb[j])); }
        }
    }
    assert(disjoint(a2, b2));
    assert forall|x: NodeId| m0.nodes.contains_key(x) && !tree_ids(ta).contains(x) && !tree_ids(tb).contains(x) implies #[trigger] m2.nodes[x] == m0.nodes[x] by {
        assert(!tree_ids(a1).contains(x));
        assert(!tree_ids(b1).contains(x));
    }
    assert forall|x: NodeId| #[trigger] m2.nodes.contains_key(x) implies same_data(m2.nodes[x], m0.nodes[x]) by {
        assert(m1.nodes.contains_key(x));
    }
}

/// Nothing changed yet.
pub proof fn lemma_post_refl(m: StoreView, ta: Tree, tb: Tree)
    requires
        cj_ready(m, ta),
        cj_ready(m, tb),
        disjoint(ta, tb),
    ensures
        cj_post(m, m, ta, tb, ta, tb),
{
}

/// The subtrees `ks` in the order of their roots in `res`.
pub open spec fn perm(ks: Seq<Tree>, res: Seq<NodeId>) -> Seq<Tree> {
    Seq::new(res.len(), |j: int| ks[tops(ks).index_of(res[j])])
}

/// The subtrees in the order `res` of their roots: each entry comes from one subtree, and
/// every subtree appears.
#[verifier::spinoff_prover]
#[verifier::rlimit(40)]
pub proof fn lemma_perm(t: Tree, res: Seq<NodeId>)
    requires
        nd(t),
        tops(t.kids).no_duplicates(),
        crate::utils::same_nodes(res, tops(t.kids)),
    ensures
        tops(perm(t.kids, res)) == res,
        forall|j: int| 0 <= j < res.len() ==> 0 <= #[trigger] tops(t.kids).index_of(res[j]) < t.kids.len()
            && perm(t.kids, res)[j] == t.kids[tops(t.kids).index_of(res[j])],
        forall|k: int| 0 <= k < t.kids.len() ==> exists|j: int| 0 <= j < res.len() && #[trigger] perm(t.kids, res)[j] == #[trigger] t.kids[k],
        forall|x: NodeId| #[trigger] tree_ids(Tree { id: t.id, kids: perm(t.kids, res) }).contains(x) == tree_ids(t).contains(x),
        !res.contains(t.id),
        forall|k: int, x: NodeId| 0 <= k < t.kids.len() && #[trigger] tree_ids(t.kids[k]).contains(x) && x != t.kids[k].id
            ==> !res.contains(x) && x != t.id,
{
    let ks = t.kids;
    let ts = tops(ks);
    let p = perm(ks, res);
    let t2 = Tree { id: t.id, kids: p };
    assert forall|j: int| 0 <= j < res.len() implies 0 <= #[trigger] ts.index_of(res[j]) < ks.len()
        && ks[ts.index_of(res[j])].id == res[j] && p[j] == ks[ts.index_of(res[j])] by {
        assert(res.contains(res[j]));
        assert(ts.contains(res[j]));
    }
    assert(tops(p) =~= res);
    assert forall|k: int| 0 <= k < ks.len() implies exists|j: int| 0 <= j < res.len() && #[trigger] p[j] == #[trigger] ks[k] by {
        assert(ts[k] == ks[k].id);
        assert(ts.contains(ks[k].id));
        assert(res.contains(ks[k].id));
        let j = choose|j: int| 0 <= j < res.len() && res[j] == ks[k].id;
        assert(ts.index_of(res[j]) == k);
    }
    assert(tree_ids(t)[0] == t.id);
    assert forall|x: NodeId| #[trigger] tree_ids(t2).contains(x) == tree_ids(t).contains(x) by {
        lemma_tree_contains(t, x);
        lemma_tree_contains(t2, x);
        if tree_ids(t).contains(x) && x != t.id {
            let k = choose|k: int| 0 <= k < ks.len() && #[trigger] tree_ids(ks[k]).contains(x);
            let j = choose|j: int| 0 <= j < res.len() && #[trigger] p[j] == #[trigger] ks[k];
            assert(tree_ids(p[j]).contains(x));
        }
        if tree_ids(t2).contains(x) && x != t.id {
            let j = choose|j: int| 0 <= j < p.len() && #[trigger] tree_ids(p[j]).contains(x);
            assert(tree_ids(ks[ts.index_of(res[j])]).contains(x));
        }
    }
    assert forall|k: int, x: NodeId| 0 <= k < ks.len() && #[trigger] tree_ids(ks[k]).contains(x) && x != ks[k].id
        implies !res.contains(x) && x != t.id by {
        if res.contains(x) {
            assert(ts.contains(x));
            let k2 = choose|k2: int| 0 <= k2 < ts.len() && ts[k2] == x;
            assert(ks[k2].id == x);
            assert(tree_ids(ks[k2])[0] == x);
            assert(tree_ids(ks[k2]).contains(x));
            if k2 < k { assert(disjoint(ks[k2], ks[k])); } else if k2 > k { assert(disjoint(ks[k], ks[k2])); }
        }
    }
    assert(!res.contains(t.id)) by {
        if res.contains(t.id) {
            assert(ts.contains(t.id));
            let k2 = choose|k2: int| 0 <= k2 < ts.len() && ts[k2] == t.id;
            assert(tree_ids(ks[k2])[0] == t.id);
            assert(tree_ids(ks[k2]).contains(t.id));
        }
    }
}

/// The links after sorting the members of the root of `t` into the order `res`.
#[verifier::spinoff_prover]
#[verifier::rlimit(40)]
proof fn lemma_sorted_links(m: StoreView, m2: StoreView, t: Tree, res: Seq<NodeId>)
    requires
        cj_ready(m, t),
        crate::utils::same_nodes(res, tops(t.kids)),
        res.len() > 0,
        !res.contains(t.id),
        m2 == crate::utils::relinked(m, res).with_node(t.id,
            NodeData { child: Some(res[0]), ..crate::utils::relinked(m, res).nodes[t.id] }),
    ensures
        m2.nodes.dom() == m.nodes.dom(),
        forall|x: NodeId| m.nodes.contains_key(x) && !res.contains(x) && x != t.id ==> #[trigger] m2.nodes[x] == m.nodes[x],
        forall|x: NodeId| #[trigger] m2.nodes.contains_key(x) ==> same_data(m2.nodes[x], m.nodes[x]),
        forall|x: NodeId| #[trigger] res.contains(x) ==> m2.nodes[x].child == m.nodes[x].child,
        m2.is_chain(m2.nodes[t.id].child, res),
        m2.nodes[t.id].next == m.nodes[t.id].next,
        m2.nodes[t.id].prev == m.nodes[t.id].prev,
        m2.strings == m.strings,
        m2.str_slots == m.str_slots,
        m2.fail_allocs == m.fail_allocs,
{
    let ts = tops(t.kids);
    lemma_ready_root(m, t);
    assert(m.is_chain(m.nodes[t.id].child, ts));
    assert(tree_ids(t)[0] == t.id);
    assert(m2.nodes.dom() =~= m.nodes.dom());
    assert forall|j: int| 0 <= j < res.len() implies #[trigger] res.index_of(res[j]) == j by {
        assert(res.no_duplicates());
    }
    assert forall|j: int| 0 <= j < res.len() implies m2.live(#[trigger] res[j]) by {
        assert(res.contains(res[j]));
        assert(ts.contains(res[j]));
        let k = choose|k: int| 0 <= k < ts.len() && ts[k] == res[j];
        assert(m.live(ts[k]));
    }
    assert forall|j: int| 0 <= j < res.len() - 1 implies m2.nodes[#[trigger] res[j]].next == Some(res[j + 1]) by {
        assert(res.contains(res[j]));
    }
    assert(res[res.len() - 1] == res.last());
    assert(res.contains(res.last()));
    assert(m2.nodes[res.last()].next is None);
}

/// After sorting, every subtree is still valid: only its root's links changed.
#[verifier::spinoff_prover]
#[verifier::rlimit(40)]
proof fn lemma_sorted_subtrees(m: StoreView, m2: StoreView, t: Tree, res: Seq<NodeId>)
    requires
        cj_ready(m, t),
        tops(t.kids).no_duplicates(),
        crate::utils::same_nodes(res, tops(t.kids)),
        m2.nodes.dom() == m.nodes.dom(),
        forall|x: NodeId| m.nodes.contains_key(x) && !res.contains(x) && x != t.id ==> #[trigger] m2.nodes[x] == m.nodes[x],
        forall|x: NodeId| #[trigger] res.contains(x) ==> m2.nodes[x].child == m.nodes[x].child,
    ensures
        forall|j: int| 0 <= j < res.len() ==> m2.tree_valid(#[trigger] perm(t.kids, res)[j], false),
{
    let ks = t.kids;
    let ts = tops(ks);
    let p = perm(ks, res);
    lemma_perm(t, res);
    assert forall|j: int| 0 <= j < p.len() implies m2.tree_valid(#[trigger] p[j], false) by {
        let k = ts.index_of(res[j]);
        let st = ks[k];
        assert(p[j] == st);
        assert(m.tree_valid(st, false));
        assert(tree_ids(st) == seq![st.id] + forest_ids(st.kids));
        assert(m.agrees_on(m2, forest_ids(st.kids).to_set())) by {
            assert forall|x: NodeId| forest_ids(st.kids).to_set().contains(x) implies (m.live(x) == m2.live(x)
                && (m.live(x) ==> m.nodes[x] == m2.nodes[x])) by {
                let q = choose|q: int| 0 <= q < forest_ids(st.kids).len() && forest_ids(st.kids)[q] == x;
                assert(tree_ids(st)[q + 1] == x);
                assert(tree_ids(st).contains(x));
                assert(nd(st));
                if x == st.id {
                    lemma_forest_contains(st.kids, x);
                    let q2 = choose|q2: int| 0 <= q2 < st.kids.len() && #[trigger] tree_ids(st.kids[q2]).contains(x);
                }
            }
        }
        crate::tree::lemma_forest_frame(m, m2, m.nodes[st.id].child, st.kids, false);
        assert(res.contains(st.id));
    }
}

/// The members sorted are nodes of `t`, so a tree disjoint from it is untouched.
#[verifier::spinoff_prover]
#[verifier::rlimit(40)]
proof fn lemma_other_untouched(m: StoreView, m2: StoreView, t: Tree, tb: Tree, res: Seq<NodeId>)
    requires
        cj_ready(m, tb),
        disjoint(t, tb),
        crate::utils::same_nodes(res, tops(t.kids)),
        m2.nodes.dom() == m.nodes.dom(),
        forall|x: NodeId| m.nodes.contains_key(x) && !res.contains(x) && x != t.id ==> #[trigger] m2.nodes[x] == m.nodes[x],
        forall|x: NodeId| #[trigger] m2.nodes.contains_key(x) ==> same_data(m2.nodes[x], m.nodes[x]),
        m2.str_slots == m.str_slots,
    ensures
        cj_ready(m2, tb),
        m2.nodes[tb.id] == m.nodes[tb.id],
        forall|y: NodeId| #[trigger] res.contains(y) ==> tree_ids(t).contains(y),
{
    assert forall|y: NodeId| #[trigger] res.contains(y) implies tree_ids(t).contains(y) by {
        assert(tops(t.kids).contains(y));
        let k = choose|k: int| 0 <= k < tops(t.kids).len() && tops(t.kids)[k] == y;
        assert(tree_ids(t.kids[k])[0] == y);
        assert(tree_ids(t.kids[k]).contains(y));
        lemma_tree_contains(t, y);
    }
    assert(tree_ids(t)[0] == t.id);
    assert(m.agrees_on(m2, tree_ids(tb).to_set())) by {
        assert forall|x: NodeId| tree_ids(tb).to_set().contains(x) implies (m.live(x) == m2.live(x)
            && (m.live(x) ==> m.nodes[x] == m2.nodes[x])) by {
            assert(tree_ids(tb).contains(x));
            assert(!tree_ids(t).contains(x));
        }
    }
    crate::tree::lemma_tree_frame(m, m2, tb, false);
    assert forall|id: NodeId| #[trigger] tree_ids(tb).contains(id) implies m2.str_ok(m2.nodes[id].valuestring)
        && m2.str_ok(m2.nodes[id].key) by {
        crate::utils::lemma_tree_ids_live(m, tb, id);
    }
}

/// Sorting the members of the root of `t` into the order `res` gives the tree with its
/// subtrees in that order, ready, over the same nodes.
#[verifier::spinoff_prover]
#[verifier::rlimit(80)]
pub proof fn lemma_sort_ready(m: StoreView, m2: StoreView, t: Tree, tb: Tree, res: Seq<NodeId>)
    requires
        cj_ready(m, t),
        cj_ready(m, tb),
        disjoint(t, tb),
        crate::utils::same_nodes(res, tops(t.kids)),
        res.len() > 0,
        m2 == crate::utils::relinked(m, res).with_node(t.id,
            NodeData { child: Some(res[0]), ..crate::utils::relinked(m, res).nodes[t.id] }),
    ensures
        cj_post(m, m2, t, tb, Tree { id: t.id, kids: perm(t.kids, res) }, tb),
        tops(perm(t.kids, res)) == res,
{
    let ks = t.kids;
    let ts = tops(ks);
    let p = perm(ks, res);
    let t2 = Tree { id: t.id, kids: p };
    lemma_ready_root(m, t);
    assert(m.is_chain(m.nodes[t.id].child, ts));
    assert(ts.no_duplicates());
    lemma_perm(t, res);
    assert(tree_ids(t)[0] == t.id);
    lemma_sorted_links(m, m2, t, res);
    lemma_sorted_subtrees(m, m2, t, res);
    assert(m2.is_chain(m2.nodes[t.id].child, tops(p)));
    assert forall|j: int| 0 <= j < p.len() implies m2.tree_valid(#[trigger] p[j], false) by {}
    assert(m2.tree_valid(t2, false));
    assert forall|id: NodeId| #[trigger] tree_ids(t2).contains(id) implies m2.str_ok(m2.nodes[id].valuestring)
        && m2.str_ok(m2.nodes[id].key) by {
        assert(tree_ids(t).contains(id));
        crate::utils::lemma_tree_ids_live(m, t, id);
    }
    assert forall|j: int| 0 <= j < p.len() implies nd(#[trigger] p[j]) && !tree_ids(p[j]).contains(t.id) by {
        assert(p[j] == ks[ts.index_of(res[j])]);
    }
    assert forall|i: int, j: int| 0 <= i < j < p.len() implies disjoint(#[trigger] p[i], #[trigger] p[j]) by {
        let ki = ts.index_of(res[i]);
        let kj = ts.index_of(res[j]);
        assert(res[i] != res[j]);
        assert(ki != kj);
        if ki < kj {
            assert(disjoint(ks[ki], ks[kj]));
        } else {
            assert(disjoint(ks[kj], ks[ki]));
            assert forall|x: NodeId| #[trigger] tree_ids(ks[ki]).contains(x) implies !tree_ids(ks[kj]).contains(x) by {}
        }
    }
    assert(nd(t2));
    lemma_other_untouched(m, m2, t, tb, res);
    let t1 = Tree { id: t.id, kids: p };
    assert(cj_ready(m2, t1));
    assert(disjoint(t1, tb));
    assert forall|x: NodeId| m.nodes.contains_key(x) && !tree_ids(t).contains(x) && !tree_ids(tb).contains(x)
        implies #[trigger] m2.nodes[x] == m.nodes[x] by {
        assert(!res.contains(x));
    }
}

/// A tree without repeats lists each node once.
pub proof fn lemma_nd_nodup(t: Tree)
    requires
        nd(t),
    ensures
        tree_ids(t).no_duplicates(),
    decreases t, 1nat,
{
    lemma_forest_nodup(t.kids, t);
    assert(tree_ids(t) == seq![t.id] + forest_ids(t.kids));
    lemma_forest_contains(t.kids, t.id);
    vstd::seq_lib::lemma_no_dup_in_concat(seq![t.id], forest_ids(t.kids));
}

proof fn lemma_forest_nodup(ts: Seq<Tree>, t: Tree)
    requires
        forall|i: int| 0 <= i < ts.len() ==> nd(#[trigger] ts[i]),
        forall|i: int, j: int| 0 <= i < j < ts.len() ==> disjoint(#[trigger] ts[i], #[trigger] ts[j]),
        nd(t),
        forall|i: int| 0 <= i < ts.len() ==> #[trigger] ts[i] == t.kids[t.kids.len() - ts.len() + i],
        ts.len() <= t.kids.len(),
    ensures
        forest_ids(ts).no_duplicates(),
    decreases t, 0nat, ts.len(),
{
    if ts.len() > 0 {
        let rest = ts.drop_first();
        assert forall|i: int| 0 <= i < rest.len() implies #[trigger] rest[i] == t.kids[t.kids.len() - rest.len() + i] by {
            assert(rest[i] == ts[i + 1]);
        }
        assert forall|i: int, j: int| 0 <= i < j < rest.len() implies disjoint(#[trigger] rest[i], #[trigger] rest[j]) by {
            assert(rest[i] == ts[i + 1]);
            assert(rest[j] == ts[j + 1]);
        }
        lemma_forest_nodup(rest, t);
        assert(ts[0] == t.kids[t.kids.len() - ts.len()]);
        lemma_nd_nodup_kid(t, t.kids.len() - ts.len());
        assert(forest_ids(ts) == tree_ids(ts[0]) + forest_ids(rest));
        assert forall|i: int, j: int| 0 <= i < tree_ids(ts[0]).len() && 0 <= j < forest_ids(rest).len()
            implies tree_ids(ts[0])[i] != forest_ids(rest)[j] by {
            let x = tree_ids(ts[0])[i];
            if x == forest_ids(rest)[j] {
                assert(forest_ids(rest).contains(x));
                lemma_forest_contains(rest, x);
                let k = choose|k: int| 0 <= k < rest.len() && #[trigger] tree_ids(rest[k]).contains(x);
                assert(rest[k] == ts[k + 1]);
                assert(disjoint(ts[0], ts[k + 1]));
                assert(tree_ids(ts[0]).contains(x));
            }
        }
        vstd::seq_lib::lemma_no_dup_in_concat(tree_ids(ts[0]), forest_ids(rest));
    } else {
        assert(forest_ids(ts) =~= Seq::<NodeId>::empty());
    }
}

proof fn lemma_nd_nodup_kid(t: Tree, i: int)
    requires
        nd(t),
        0 <= i < t.kids.len(),
    ensures
        tree_ids(t.kids[i]).no_duplicates(),
    decreases t, 0nat, 0nat,
{
    assert(nd(t.kids[i]));
    lemma_nd_nodup(t.kids[i]);
}

/// Two trees without repeats over the same nodes have the same size.
pub proof fn lemma_same_size(t1: Tree, t2: Tree)
    requires
        nd(t1),
        nd(t2),
        forall|x: NodeId| #[trigger] tree_ids(t1).contains(x) == tree_ids(t2).contains(x),
    ensures
        tsz(t1) == tsz(t2),
{
    lemma_nd_nodup(t1);
    lemma_nd_nodup(t2);
    assert(tree_ids(t1).to_set() =~= tree_ids(t2).to_set());
    tree_ids(t1).unique_seq_to_set();
    tree_ids(t2).unique_seq_to_set();
}

/// The comparison seen from the other side.
pub proof fn lemma_post_swap(m0: StoreView, m1: StoreView, ta: Tree, tb: Tree, ta1: Tree, tb1: Tree)
    requires
        cj_post(m0, m1, ta, tb, ta1, tb1),
    ensures
        cj_post(m0, m1, tb, ta, tb1, ta1),
{
    assert forall|x: NodeId| #[trigger] tree_ids(tb1).contains(x) implies !tree_ids(ta1).contains(x) by {}
}

/// Two steps of the comparison make one.
pub proof fn lemma_post_trans(m0: StoreView, m1: StoreView, m2: StoreView, ta: Tree, tb: Tree, ta1: Tree, tb1: Tree, ta2: Tree, tb2: Tree)
    requires
        cj_post(m0, m1, ta, tb, ta1, tb1),
        cj_post(m1, m2, ta1, tb1, ta2, tb2),
    ensures
        cj_post(m0, m2, ta, tb, ta2, tb2),
{
    assert forall|x: NodeId| m0.nodes.contains_key(x) && !tree_ids(ta).contains(x) && !tree_ids(tb).contains(x)
        implies #[trigger] m2.nodes[x] == m0.nodes[x] by {
        assert(m1.nodes.contains_key(x));
        assert(!tree_ids(ta1).contains(x));
        assert(!tree_ids(tb1).contains(x));
    }
    assert forall|x: NodeId| #[trigger] m2.nodes.contains_key(x) implies same_data(m2.nodes[x], m0.nodes[x]) by {
        assert(m1.nodes.contains_key(x));
    }
}

/// Pairs before `i` that compare equal do not change the outcome of the rest.
pub proof fn lemma_kids_prefix<E: Fn(u64, u64) -> bool>(m: StoreView, ta: Tree, tb: Tree, i: int, keyed: bool, cs: bool, e: E)
    requires
        0 <= i <= ta.kids.len(),
        i <= tb.kids.len(),
        forall|j: int| 0 <= j < i ==> #[trigger] pair_eq(m, ta.kids[j], tb.kids[j], keyed, cs, e),
    ensures
        jeq_kids(m, ta, tb, 0, keyed, cs, e) == jeq_kids(m, ta, tb, i, keyed, cs, e),
    decreases i,
{
    if i > 0 {
        assert(pair_eq(m, ta.kids[i - 1], tb.kids[i - 1], keyed, cs, e));
        lemma_kids_prefix(m, ta, tb, i - 1, keyed, cs, e);
    }
}

/// The subtrees of a ready tree are ready.
pub proof fn lemma_kid_ready(m: StoreView, t: Tree, i: int)
    requires
        cj_ready(m, t),
        0 <= i < t.kids.len(),
    ensures
        cj_ready(m, t.kids[i]),
        forall|x: NodeId| #[trigger] tree_ids(t.kids[i]).contains(x) ==> tree_ids(t).contains(x),
        m.nodes[t.kids[i].id].next == (if i + 1 < t.kids.len() { Some(t.kids[i + 1].id) } else { None::<NodeId> }),
        m.live(t.kids[i].id),
        m.str_ok(m.nodes[t.kids[i].id].key),
        m.nodes[t.id].child == Some(t.kids[0].id),
{
    lemma_ready_kid(m, t, i);
    assert forall|x: NodeId| #[trigger] tree_ids(t.kids[i]).contains(x) implies tree_ids(t).contains(x) by {
        lemma_tree_contains(t, x);
    }
}

pub fn call_eq<E: Fn(u64, u64) -> bool>(e: &E, x: u64, y: u64) -> (r: bool)
    requires
        eq_ok(*e),
    ensures
        r == eq_of(*e, x, y),
{
    e(x, y)
}

/// Compare the children of `a` and `b` pairwise, in their order.
#[verifier::spinoff_prover]
#[verifier::rlimit(60)]
fn cj_kids<E: Fn(u64, u64) -> bool>(
    store: &mut SafeStore,
    a: NodeId,
    b: NodeId,
    keyed: bool,
    cs: bool,
    e: &E,
    Ghost(ta): Ghost<Tree>,
    Ghost(tb): Ghost<Tree>,
) -> (r: (bool, Ghost<(Tree, Tree)>))
    requires
        cj_ready(old(store)@, ta),
        cj_ready(old(store)@, tb),
        disjoint(ta, tb),
        ta.id == a,
        tb.id == b,
        eq_ok(*e),
    ensures
        cj_post(old(store)@, final(store)@, ta, tb, r.1@.0, r.1@.1),
        r.0 == jeq_kids(final(store)@, r.1@.0, r.1@.1, 0, keyed, cs, *e),
    decreases tsz(ta) + tsz(tb), 0nat,
{
    let ghost m0 = store@;
    let ghost mut ka = ta.kids;
    let ghost mut kb = tb.kids;
    proof {
        lemma_post_refl(m0, ta, tb);
        lemma_ready_root(m0, ta);
        lemma_ready_root(m0, tb);
    }
    let mut ca = store.child(a);
    let mut cb = store.child(b);
    let ghost mut i: int = 0;
    loop
        invariant
            eq_ok(*e),
            ta.id == a,
            tb.id == b,
            cj_ready(m0, ta),
            cj_ready(m0, tb),
            disjoint(ta, tb),
            cj_post(m0, store@, ta, tb, Tree { id: a, kids: ka }, Tree { id: b, kids: kb }),
            ka.len() == ta.kids.len(),
            kb.len() == tb.kids.len(),
            0 <= i <= ka.len(),
            i <= kb.len(),
            forall|j: int| i <= j < ka.len() ==> #[trigger] ka[j] == ta.kids[j],
            forall|j: int| i <= j < kb.len() ==> #[trigger] kb[j] == tb.kids[j],
            ca == (if i < ka.len() { Some(ka[i].id) } else { None::<NodeId> }),
            cb == (if i < kb.len() { Some(kb[i].id) } else { None::<NodeId> }),
            forall|j: int| 0 <= j < i ==> #[trigger] pair_eq(store@, ka[j], kb[j], keyed, cs, *e),
            m0 == old(store)@,
        decreases ka.len() - i,
    {
        let ghost m1 = store@;
        let ghost ta1 = Tree { id: a, kids: ka };
        let ghost tb1 = Tree { id: b, kids: kb };
        let (x, y) = match (ca, cb) {
            (Some(x), Some(y)) => (x, y),
            _ => {
                proof {
                    assert forall|j: int| 0 <= j < i implies #[trigger] pair_eq(m1, ta1.kids[j], tb1.kids[j], keyed, cs, *e) by {
                        assert(pair_eq(m1, ka[j], kb[j], keyed, cs, *e));
                    }
                    lemma_kids_prefix(m1, ta1, tb1, i, keyed, cs, *e);
                }
                let r = ca.is_none() && cb.is_none();
                return (r, Ghost((ta1, tb1)));
            },
        };
        proof {
            lemma_kid_ready(m1, ta1, i);
            lemma_kid_ready(m1, tb1, i);
            assert(ka[i] == ta.kids[i]);
            assert(kb[i] == tb.kids[i]);
            lemma_kid_smaller(ta, i);
            lemma_kid_smaller(tb, i);
            assert(disjoint(ka[i], kb[i])) by {
                assert forall|z: NodeId| #[trigger] tree_ids(ka[i]).contains(z) implies !tree_ids(kb[i]).contains(z) by {
                    assert(tree_ids(ta1).contains(z));
                }
            }
        }
        if keyed {
            let kx = store.key_bytes(x);
            let ky = store.key_bytes(y);
            if !crate::types::bytes_eq_case(kx, ky, cs) {
                proof {
                    assert forall|j: int| 0 <= j < i implies #[trigger] pair_eq(m1, ta1.kids[j], tb1.kids[j], keyed, cs, *e) by {
                        assert(pair_eq(m1, ka[j], kb[j], keyed, cs, *e));
                    }
                    lemma_kids_prefix(m1, ta1, tb1, i, keyed, cs, *e);
                }
                return (false, Ghost((ta1, tb1)));
            }
        }
        let (rr, Ghost(pair)) = cj_rec(store, x, y, cs, e, Ghost(ka[i]), Ghost(kb[i]));
        let ghost x1 = pair.0;
        let ghost y1 = pair.1;
        let ghost m2 = store@;
        proof {
            lemma_post_step(m0, m1, m2, ta, tb, ka, kb, i, x1, y1);
            assert forall|j: int| 0 <= j < i implies #[trigger] pair_eq(m2, ka[j], kb[j], keyed, cs, *e) by {
                assert(pair_eq(m1, ka[j], kb[j], keyed, cs, *e));
                assert(agree_ids(m1, m2, tree_ids(ka[j])));
                assert(agree_ids(m1, m2, tree_ids(kb[j])));
                lemma_jeq_frame(m1, m2, ka[j], kb[j], cs, *e);
                assert(tree_ids(ka[j])[0] == ka[j].id);
                assert(tree_ids(kb[j])[0] == kb[j].id);
                assert(tree_ids(ka[j]).contains(ka[j].id));
                assert(tree_ids(kb[j]).contains(kb[j].id));
            }
            // the keys of the pair were read before its comparison, which keeps them
            assert(m2.nodes.contains_key(x));
            assert(m2.nodes.contains_key(y));
            assert(same_data(m2.nodes[x], m1.nodes[x]));
            assert(same_data(m2.nodes[y], m1.nodes[y]));
            ka = ka.update(i, x1);
            kb = kb.update(i, y1);
        }
        if !rr {
            proof {
                let ta2 = Tree { id: a, kids: ka };
                let tb2 = Tree { id: b, kids: kb };
                assert(ka[i] == x1 && kb[i] == y1);
                assert forall|j: int| 0 <= j < i implies #[trigger] pair_eq(m2, ta2.kids[j], tb2.kids[j], keyed, cs, *e) by {
                    assert(ta2.kids[j] == ka[j]);
                    assert(tb2.kids[j] == kb[j]);
                }
                lemma_kids_prefix(m2, ta2, tb2, i, keyed, cs, *e);
            }
            return (false, Ghost((Tree { id: a, kids: ka }, Tree { id: b, kids: kb })));
        }
        proof {
            let ta2 = Tree { id: a, kids: ka };
            let tb2 = Tree { id: b, kids: kb };
            lemma_kid_ready(m2, ta2, i);
            lemma_kid_ready(m2, tb2, i);
        }
        ca = store.next(x);
        cb = store.next(y);
        proof {
            i = i + 1;
        }
    }
}

/// Compare `a` and `b` (the roots of `ta` and `tb`), sorting objects' members first.
#[verifier::spinoff_prover]
#[verifier::rlimit(60)]
fn cj_rec<E: Fn(u64, u64) -> bool>(
    store: &mut SafeStore,
    a: NodeId,
    b: NodeId,
    cs: bool,
    e: &E,
    Ghost(ta): Ghost<Tree>,
    Ghost(tb): Ghost<Tree>,
) -> (r: (bool, Ghost<(Tree, Tree)>))
    requires
        cj_ready(old(store)@, ta),
        cj_ready(old(store)@, tb),
        disjoint(ta, tb),
        ta.id == a,
        tb.id == b,
        eq_ok(*e),
    ensures
        cj_post(old(store)@, final(store)@, ta, tb, r.1@.0, r.1@.1),
        r.0 == jeq(final(store)@, r.1@.0, r.1@.1, cs, *e),
    decreases tsz(ta) + tsz(tb), 1nat,
{
    let ghost m0 = store@;
    proof {
        lemma_post_refl(m0, ta, tb);
        lemma_ready_root(m0, ta);
        lemma_ready_root(m0, tb);
    }
    let ka = crate::types::type_kind(store.ty(a));
    let kb = crate::types::type_kind(store.ty(b));
    if ka != kb {
        return (false, Ghost((ta, tb)));
    }
    if ka == NUMBER {
        let r = store.valueint(a) == store.valueint(b) && call_eq(e, store.valuedouble(a), store.valuedouble(b));
        return (r, Ghost((ta, tb)));
    }
    if ka == STRING {
        let r = match (store.valuestring_bytes(a), store.valuestring_bytes(b)) {
            (Some(x), Some(y)) => crate::types::bytes_equal(x, y),
            _ => false,
        };
        return (r, Ghost((ta, tb)));
    }
    if ka == ARRAY {
        return cj_kids(store, a, b, false, cs, e, Ghost(ta), Ghost(tb));
    }
    if ka != OBJECT {
        return (true, Ghost((ta, tb)));
    }
    let (ta1, tb1) = sort_pair(store, a, b, cs, Ghost(ta), Ghost(tb));
    let ghost m1 = store@;
    proof {
        lemma_same_size(ta, ta1@);
        lemma_same_size(tb, tb1@);
    }
    let (r, Ghost(pair)) = cj_kids(store, a, b, true, cs, e, ta1, tb1);
    proof {
        lemma_post_trans(m0, m1, store@, ta, tb, ta1@, tb1@, pair.0, pair.1);
        assert(spec_type_kind(store@.nodes[a].ty) == OBJECT);
        assert(spec_type_kind(store@.nodes[b].ty) == OBJECT);
    }
    (r, Ghost(pair))
}

/// Sorting the members of the root of `t` (which `sort_object` does) keeps the comparison's
/// frame, with the subtrees put in the order the sort chose.
proof fn lemma_after_sort(m: StoreView, m2: StoreView, t: Tree, tb: Tree, cs: bool) -> (t1: Tree)
    requires
        cj_ready(m, t),
        cj_ready(m, tb),
        disjoint(t, tb),
        ({
            let s = m.chain(m.nodes[t.id].child);
            if s.len() <= 1 || crate::utils::keys_ascending(m, s, cs) {
                m2 == m.with_node(t.id, m.nodes[t.id])
            } else {
                exists|res: Seq<NodeId>| #[trigger] crate::utils::sorted_into(m, crate::utils::relinked(m, res), s, res, cs)
                    && res.len() > 0
                    && m2 == crate::utils::relinked(m, res).with_node(t.id,
                        NodeData { child: Some(res[0]), ..crate::utils::relinked(m, res).nodes[t.id] })
            }
        }),
    ensures
        cj_post(m, m2, t, tb, t1, tb),
{
    lemma_ready_root(m, t);
    crate::tree::lemma_chain_is(m, m.nodes[t.id].child, tops(t.kids));
    let s = m.chain(m.nodes[t.id].child);
    if s.len() <= 1 || crate::utils::keys_ascending(m, s, cs) {
        assert(m2.nodes =~= m.nodes);
        assert(m2 == m);
        lemma_post_refl(m, t, tb);
        t
    } else {
        let res = choose|res: Seq<NodeId>| #[trigger] crate::utils::sorted_into(m, crate::utils::relinked(m, res), s, res, cs)
            && res.len() > 0
            && m2 == crate::utils::relinked(m, res).with_node(t.id,
                NodeData { child: Some(res[0]), ..crate::utils::relinked(m, res).nodes[t.id] });
        lemma_sort_ready(m, m2, t, tb, res);
        Tree { id: t.id, kids: perm(t.kids, res) }
    }
}

/// What sorting needs of the members of a ready tree's root.
proof fn lemma_sortable(m: StoreView, t: Tree)
    requires
        cj_ready(m, t),
    ensures
        m.live(t.id),
        crate::utils::chain_keys_ok(m, m.nodes[t.id].child),
{
    lemma_ready_root(m, t);
    crate::tree::lemma_chain_is(m, m.nodes[t.id].child, tops(t.kids));
    assert forall|i: int| 0 <= i < m.chain(m.nodes[t.id].child).len()
        implies m.str_ok(m.nodes[#[trigger] m.chain(m.nodes[t.id].child)[i]].key) by {
        lemma_kid_ready(m, t, i);
    }
}

/// Sort the members of `a`, then those of `b`.
pub fn sort_pair(store: &mut SafeStore, a: NodeId, b: NodeId, cs: bool, Ghost(ta): Ghost<Tree>, Ghost(tb): Ghost<Tree>)
    -> (r: (Ghost<Tree>, Ghost<Tree>))
    requires
        cj_ready(old(store)@, ta),
        cj_ready(old(store)@, tb),
        disjoint(ta, tb),
        ta.id == a,
        tb.id == b,
    ensures
        cj_post(old(store)@, final(store)@, ta, tb, r.0@, r.1@),
{
    let ghost m0 = store@;
    proof { lemma_sortable(m0, ta); }
    sort_object(store, a, cs);
    let ghost m1 = store@;
    let ghost ta1 = lemma_after_sort(m0, m1, ta, tb, cs);
    proof {
        lemma_post_swap(m0, m1, ta, tb, ta1, tb);
        lemma_sortable(m1, tb);
    }
    sort_object(store, b, cs);
    let ghost m2 = store@;
    let ghost tb1 = lemma_after_sort(m1, m2, tb, ta1, cs);
    proof {
        lemma_post_swap(m1, m2, tb, ta1, tb1, ta1);
        lemma_post_trans(m0, m1, m2, ta, tb, ta1, tb, ta1, tb1);
    }
    (Ghost(ta1), Ghost(tb1))
}

/// What `compare_json` needs: finite trees below `a` and `b`, without repeats, with
/// readable string handles, and no node in both.
pub open spec fn json_pair_ready(m: StoreView, a: NodeId, b: NodeId) -> bool {
    &&& m.has_tree(a, false)
    &&& m.has_tree(b, false)
    &&& cj_ready(m, m.tree_of(a, false))
    &&& cj_ready(m, m.tree_of(b, false))
    &&& disjoint(m.tree_of(a, false), m.tree_of(b, false))
}

/// The outcome of `compare_json` on the trees below `a` and `b`: in `after` the members of
/// the objects compared have been sorted (the trees are `ta1` and `tb1`, over the same
/// nodes), and `r` says whether they compare equal there, pair by pair.
pub open spec fn json_compared<E: Fn(u64, u64) -> bool>(before: StoreView, after: StoreView, a: NodeId, b: NodeId, cs: bool, e: E, r: bool) -> bool {
    exists|ta1: Tree, tb1: Tree| #[trigger] cj_post(before, after, before.tree_of(a, false), before.tree_of(b, false), ta1, tb1)
        && r == jeq(after, ta1, tb1, cs, e)
}

/// Whether `a` and `b` hold equal values, object
/// members compared in key order after sorting both objects in place. Absent nodes compare
/// unequal.
pub fn compare_json<E: Fn(u64, u64) -> bool>(store: &mut SafeStore, a: Option<NodeId>, b: Option<NodeId>, case_sensitive: bool, e: &E) -> (r: bool)
    requires
        eq_ok(*e),
        a is Some && b is Some ==> json_pair_ready(old(store)@, a.unwrap(), b.unwrap()),
    ensures
        a is None || b is None ==> !r && final(store)@ == old(store)@,
        a is Some && b is Some ==> json_compared(old(store)@, final(store)@, a.unwrap(), b.unwrap(), case_sensitive, *e, r),
{
    let (x, y) = match (a, b) {
        (Some(x), Some(y)) => (x, y),
        _ => return false,
    };
    let ghost m = store@;
    let ghost ta = m.tree_of(x, false);
    let ghost tb = m.tree_of(y, false);
    let (r, Ghost(pair)) = cj_rec(store, x, y, case_sensitive, e, Ghost(ta), Ghost(tb));
    proof {
        assert(cj_post(m, store@, ta, tb, pair.0, pair.1));
    }
    r
}

} // verus!
