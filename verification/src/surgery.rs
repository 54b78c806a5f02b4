//! The tree that remains when a node is unlinked from its parent.
use vstd::prelude::*;
use crate::store::{NodeId, NodeData, StoreView};
use crate::dom::{listed, unlinked, lemma_unlink_list};
use crate::tree::{Tree, tops, tree_ids, forest_ids};
use crate::equal::{nd, disjoint, lemma_tree_contains, lemma_forest_contains};
use crate::types::spec_is_reference;

verus! {

/// `t` without the subtree rooted at `c`.
pub open spec fn cut(t: Tree, c: NodeId) -> Tree
    decreases t, 1nat,
{
    Tree { id: t.id, kids: cut_forest(t.kids, c) }
}

/// The forest `ts` without the subtree rooted at `c`.
pub open spec fn cut_forest(ts: Seq<Tree>, c: NodeId) -> Seq<Tree>
    decreases ts, 0nat,
{
    if ts.len() == 0 {
        ts
    } else if ts[0].id == c {
        cut_forest(ts.drop_first(), c)
    } else {
        seq![cut(ts[0], c)] + cut_forest(ts.drop_first(), c)
    }
}

/// Cutting a node that is not in the tree changes nothing.
pub proof fn lemma_cut_noop(t: Tree, c: NodeId)
    requires
        !tree_ids(t).contains(c),
    ensures
        cut(t, c) == t,
    decreases t, 1nat,
{
    assert forall|k: int| 0 <= k < t.kids.len() implies !tree_ids(#[trigger] t.kids[k]).contains(c) by {
        lemma_tree_contains(t, c);
    }
    lemma_cut_forest_noop(t.kids, c);
}

pub proof fn lemma_cut_forest_noop(ts: Seq<Tree>, c: NodeId)
    requires
        forall|k: int| 0 <= k < ts.len() ==> !tree_ids(#[trigger] ts[k]).contains(c),
    ensures
        cut_forest(ts, c) == ts,
    decreases ts, 0nat,
{
    if ts.len() > 0 {
        let rest = ts.drop_first();
        assert(!tree_ids(ts[0]).contains(c));
        assert(tree_ids(ts[0])[0] == ts[0].id);
        lemma_cut_noop(ts[0], c);
        assert forall|k: int| 0 <= k < rest.len() implies !tree_ids(#[trigger] rest[k]).contains(c) by {
            assert(rest[k] == ts[k + 1]);
        }
        lemma_cut_forest_noop(rest, c);
        assert(seq![ts[0]] + rest =~= ts);
    }
}

/// Cutting the root of the `i`-th tree of a forest removes that tree.
pub proof fn lemma_cut_forest_remove(ts: Seq<Tree>, i: int, c: NodeId)
    requires
        0 <= i < ts.len(),
        ts[i].id == c,
        forall|k: int| 0 <= k < ts.len() && k != i ==> !tree_ids(#[trigger] ts[k]).contains(c),
    ensures
        cut_forest(ts, c) == ts.remove(i),
    decreases ts.len(),
{
    let rest = ts.drop_first();
    if i == 0 {
        assert forall|k: int| 0 <= k < rest.len() implies !tree_ids(#[trigger] rest[k]).contains(c) by {
            assert(rest[k] == ts[k + 1]);
        }
        lemma_cut_forest_noop(rest, c);
        assert(ts.remove(0) =~= rest);
    } else {
        assert(!tree_ids(ts[0]).contains(c));
        assert(tree_ids(ts[0])[0] == ts[0].id);
        lemma_cut_noop(ts[0], c);
        assert forall|k: int| 0 <= k < rest.len() && k != i - 1 implies !tree_ids(#[trigger] rest[k]).contains(c) by {
            assert(rest[k] == ts[k + 1]);
        }
        lemma_cut_forest_remove(rest, i - 1, c);
        assert(seq![ts[0]] + rest.remove(i - 1) =~= ts.remove(i));
    }
}

/// Cutting a node below the root of the `j`-th tree of a forest cuts it in that tree.
pub proof fn lemma_cut_forest_update(ts: Seq<Tree>, j: int, c: NodeId)
    requires
        0 <= j < ts.len(),
        ts[j].id != c,
        forall|k: int| 0 <= k < ts.len() && k != j ==> !tree_ids(#[trigger] ts[k]).contains(c),
    ensures
        cut_forest(ts, c) == ts.update(j, cut(ts[j], c)),
    decreases ts.len(),
{
    let rest = ts.drop_first();
    if j == 0 {
        assert forall|k: int| 0 <= k < rest.len() implies !tree_ids(#[trigger] rest[k]).contains(c) by {
            assert(rest[k] == ts[k + 1]);
        }
        lemma_cut_forest_noop(rest, c);
        assert(seq![cut(ts[0], c)] + rest =~= ts.update(0, cut(ts[0], c)));
    } else {
        assert(!tree_ids(ts[0]).contains(c));
        assert(tree_ids(ts[0])[0] == ts[0].id);
        lemma_cut_noop(ts[0], c);
        assert forall|k: int| 0 <= k < rest.len() && k != j - 1 implies !tree_ids(#[trigger] rest[k]).contains(c) by {
            assert(rest[k] == ts[k + 1]);
        }
        assert(rest[j - 1] == ts[j]);
        lemma_cut_forest_update(rest, j - 1, c);
        assert(seq![ts[0]] + rest.update(j - 1, cut(ts[j], c)) =~= ts.update(j, cut(ts[j], c)));
    }
}

/// The children of a node of a valid tree are nodes of the tree below its root.
pub proof fn lemma_children_in(m: StoreView, t: Tree, p: NodeId)
    requires
        m.tree_valid(t, false),
        nd(t),
        tree_ids(t).contains(p),
    ensures
        forall|y: NodeId| #[trigger] m.children(p).contains(y) ==> tree_ids(t).contains(y) && y != t.id,
        !m.children(p).contains(p),
    decreases t,
{
    lemma_tree_contains(t, p);
    if p == t.id {
        crate::tree::lemma_chain_is(m, m.nodes[t.id].child, tops(t.kids));
        assert forall|y: NodeId| #[trigger] m.children(p).contains(y) implies tree_ids(t).contains(y) && y != t.id by {
            let k = choose|k: int| 0 <= k < tops(t.kids).len() && tops(t.kids)[k] == y;
            assert(tree_ids(t.kids[k])[0] == y);
            assert(tree_ids(t.kids[k]).contains(y));
            lemma_tree_contains(t, y);
        }
    } else {
        let j = choose|j: int| 0 <= j < t.kids.len() && #[trigger] tree_ids(t.kids[j]).contains(p);
        lemma_children_in(m, t.kids[j], p);
        assert forall|y: NodeId| #[trigger] m.children(p).contains(y) implies tree_ids(t).contains(y) && y != t.id by {
            assert(tree_ids(t.kids[j]).contains(y));
            lemma_tree_contains(t, y);
        }
    }
}

/// Which fields unlinking the `i`-th child of `p` changes: `p`'s first child, and the links
/// of `p`'s children.
pub proof fn lemma_unlink_frame(m: StoreView, p: NodeId, s: Seq<NodeId>, i: int)
    requires
        m.live(p),
        m.is_list(m.nodes[p].child, s),
        0 <= i < s.len(),
        !s.contains(p),
    ensures
        forall|x: NodeId| x != p && !s.contains(x) ==> #[trigger] unlinked(m, p, s[i]).nodes[x] == m.nodes[x],
        forall|x: NodeId| #[trigger] s.contains(x) ==> unlinked(m, p, s[i]).nodes[x] == (NodeData {
            next: unlinked(m, p, s[i]).nodes[x].next,
            prev: unlinked(m, p, s[i]).nodes[x].prev,
            ..m.nodes[x]
        }),
        unlinked(m, p, s[i]).nodes[p] == (NodeData { child: unlinked(m, p, s[i]).nodes[p].child, ..m.nodes[p] }),
{
    let n = s.len();
    assert(s[n - 1] == s.last());
    assert(s.contains(s[0]));
    assert(s.contains(s.last()));
    assert(s.contains(s[i]));
    if i > 0 {
        assert(m.nodes[s[i]].prev == Some(s[i - 1]));
        assert(s.contains(s[i - 1]));
    } else {
        assert(m.nodes[s[i]].prev == Some(s.last()));
    }
    if i + 1 < n {
        assert(m.nodes[s[i]].next == Some(s[i + 1]));
        assert(s.contains(s[i + 1]));
    }
}

/// A tree whose root changed only its links, and whose other nodes are as they were, is
/// still valid.
pub proof fn lemma_root_links(m: StoreView, m2: StoreView, t: Tree)
    requires
        m.tree_valid(t, false),
        m2.live(t.id),
        m2.nodes[t.id].child == m.nodes[t.id].child,
        m.agrees_on(m2, forest_ids(t.kids).to_set()),
    ensures
        m2.tree_valid(t, false),
{
    crate::tree::lemma_forest_frame(m, m2, m.nodes[t.id].child, t.kids, false);
}

/// The nodes below the root of a subtree `ts[k]` of a forest without repeats are neither
/// the root nor any root of the forest.
proof fn lemma_inner_ids(t: Tree, k: int, x: NodeId)
    requires
        nd(t),
        0 <= k < t.kids.len(),
        forest_ids(t.kids[k].kids).contains(x),
    ensures
        x != t.id,
        !tops(t.kids).contains(x),
        tree_ids(t.kids[k]).contains(x),
{
    let sk = t.kids[k];
    assert(tree_ids(sk) == seq![sk.id] + forest_ids(sk.kids));
    let q = choose|q: int| 0 <= q < forest_ids(sk.kids).len() && forest_ids(sk.kids)[q] == x;
    assert(tree_ids(sk)[q + 1] == x);
    assert(tree_ids(sk).contains(x));
    assert(nd(sk));
    lemma_forest_contains(sk.kids, x);
    if tops(t.kids).contains(x) {
        let k2 = choose|k2: int| 0 <= k2 < tops(t.kids).len() && tops(t.kids)[k2] == x;
        assert(tree_ids(t.kids[k2])[0] == x);
        assert(tree_ids(t.kids[k2]).contains(x));
        if k2 < k {
            assert(disjoint(t.kids[k2], t.kids[k]));
        } else if k2 > k {
            assert(disjoint(t.kids[k], t.kids[k2]));
        } else {
            let q2 = choose|q2: int| 0 <= q2 < sk.kids.len() && #[trigger] tree_ids(sk.kids[q2]).contains(x);
        }
    }
}

/// Unlinking the child `c` of a node `p` of a valid tree `t` leaves `t` without the
/// subtree of `c` valid.
pub proof fn lemma_cut_valid(m: StoreView, t: Tree, p: NodeId, c: NodeId)
    requires
        m.tree_valid(t, false),
        nd(t),
        tree_ids(t).contains(p),
        listed(m, p),
        m.children(p).contains(c),
    ensures
        unlinked(m, p, c).tree_valid(cut(t, c), false),
    decreases t, 1nat,
{
    if t.id == p {
        lemma_cut_here(m, t, p, c);
    } else {
        lemma_cut_deeper(m, t, p, c);
    }
}

/// The common facts of unlinking `c` from `p`.
proof fn lemma_unlink_facts(m: StoreView, t: Tree, p: NodeId, c: NodeId)
    requires
        m.tree_valid(t, false),
        nd(t),
        tree_ids(t).contains(p),
        listed(m, p),
        m.children(p).contains(c),
    ensures
        ({
            let m1 = unlinked(m, p, c);
            let s = m.children(p);
            &&& s[s.index_of(c)] == c
            &&& 0 <= s.index_of(c) < s.len()
            &&& m.is_list(m.nodes[p].child, s)
            &&& !s.contains(p)
            &&& forall|y: NodeId| #[trigger] s.contains(y) ==> tree_ids(t).contains(y) && y != t.id
            &&& forall|x: NodeId| x != p && !s.contains(x) ==> #[trigger] m1.nodes[x] == m.nodes[x]
            &&& forall|x: NodeId| #[trigger] s.contains(x) ==> m1.nodes[x].child == m.nodes[x].child
            &&& m1.nodes[p].child == m1.nodes[p].child
            &&& m1.nodes[p].next == m.nodes[p].next
            &&& m1.is_list(m1.nodes[p].child, s.remove(s.index_of(c)))
            &&& m1.nodes.dom() == m.nodes.dom()
        }),
{
    let s = m.children(p);
    lemma_children_in(m, t, p);
    crate::tree::lemma_chain_is(m, m.nodes[p].child, s);
    let i = s.index_of(c);
    assert(s[i] == c);
    lemma_unlink_frame(m, p, s, i);
    lemma_unlink_list(m, p, s, i);
    assert forall|x: NodeId| #[trigger] s.contains(x) implies unlinked(m, p, c).nodes[x].child == m.nodes[x].child by {}
}

/// Cutting a child of the root.
#[verifier::spinoff_prover]
#[verifier::rlimit(60)]
proof fn lemma_cut_here(m: StoreView, t: Tree, p: NodeId, c: NodeId)
    requires
        m.tree_valid(t, false),
        nd(t),
        t.id == p,
        listed(m, p),
        m.children(p).contains(c),
    ensures
        unlinked(m, p, c).tree_valid(cut(t, c), false),
{
    let m1 = unlinked(m, p, c);
    let s = m.children(p);
    assert(tree_ids(t)[0] == t.id);
    lemma_unlink_facts(m, t, p, c);
    let i = s.index_of(c);
    let ks = t.kids;
    crate::tree::lemma_chain_is(m, m.nodes[t.id].child, tops(ks));
    assert(tops(ks) == s);
    assert(ks[i].id == c);
    assert forall|k: int| 0 <= k < ks.len() && k != i implies !tree_ids(#[trigger] ks[k]).contains(c) by {
        assert(tree_ids(ks[i])[0] == c);
        assert(tree_ids(ks[i]).contains(c));
        if k < i { assert(disjoint(ks[k], ks[i])); } else { assert(disjoint(ks[i], ks[k])); }
    }
    lemma_cut_forest_remove(ks, i, c);
    let ks2 = ks.remove(i);
    assert(tops(ks2) =~= s.remove(i));
    assert forall|k: int| 0 <= k < ks2.len() implies m1.tree_valid(#[trigger] ks2[k], false) by {
        let k0 = if k < i { k } else { k + 1 };
        assert(ks2[k] == ks[k0]);
        let sk = ks[k0];
        assert(s.contains(sk.id)) by { assert(s[k0] == sk.id); }
        assert(m.agrees_on(m1, forest_ids(sk.kids).to_set())) by {
            assert forall|x: NodeId| forest_ids(sk.kids).to_set().contains(x) implies (m.live(x) == m1.live(x)
                && (m.live(x) ==> m.nodes[x] == m1.nodes[x])) by {
                lemma_inner_ids(t, k0, x);
            }
        }
        lemma_root_links(m, m1, sk);
    }
}

/// Cutting a node deeper down: the cut happens inside one subtree.
#[verifier::spinoff_prover]
#[verifier::rlimit(60)]
proof fn lemma_cut_deeper(m: StoreView, t: Tree, p: NodeId, c: NodeId)
    requires
        m.tree_valid(t, false),
        nd(t),
        tree_ids(t).contains(p),
        t.id != p,
        listed(m, p),
        m.children(p).contains(c),
    ensures
        unlinked(m, p, c).tree_valid(cut(t, c), false),
    decreases t, 0nat,
{
    let m1 = unlinked(m, p, c);
    let s = m.children(p);
    lemma_unlink_facts(m, t, p, c);
    lemma_tree_contains(t, p);
    let ks = t.kids;
    let j = choose|j: int| 0 <= j < ks.len() && #[trigger] tree_ids(ks[j]).contains(p);
    lemma_children_in(m, ks[j], p);
    assert(tree_ids(ks[j]).contains(c));
    assert forall|k: int| 0 <= k < ks.len() && k != j implies !tree_ids(#[trigger] ks[k]).contains(c) by {
        if k < j { assert(disjoint(ks[k], ks[j])); } else { assert(disjoint(ks[j], ks[k])); }
    }
    lemma_cut_forest_update(ks, j, c);
    lemma_cut_valid(m, ks[j], p, c);
    let ks2 = ks.update(j, cut(ks[j], c));
    assert(!s.contains(t.id));
    assert(m1.nodes[t.id] == m.nodes[t.id]);
    assert forall|k: int, x: NodeId| 0 <= k < ks.len() && k != j && #[trigger] tree_ids(ks[k]).contains(x)
        implies x != p && !s.contains(x) by {
        if k < j { assert(disjoint(ks[k], ks[j])); } else { assert(disjoint(ks[j], ks[k])); }
    }
    assert(tops(ks2) =~= tops(ks));
    assert forall|k: int| 0 <= k < ks.len() implies m1.nodes[#[trigger] tops(ks)[k]].next == m.nodes[tops(ks)[k]].next by {
        assert(tops(ks)[k] == ks[k].id);
        assert(tree_ids(ks[k])[0] == ks[k].id);
        assert(tree_ids(ks[k]).contains(ks[k].id));
        if k == j {
            lemma_children_in(m, ks[j], p);
        }
    }
    let hs = tops(ks);
    if hs.len() > 0 {
        assert(hs[hs.len() - 1] == hs.last());
    }
    assert(m1.is_chain(m1.nodes[t.id].child, tops(ks2)));
    assert forall|k: int| 0 <= k < ks2.len() implies m1.tree_valid(#[trigger] ks2[k], false) by {
        if k != j {
            assert(ks2[k] == ks[k]);
            assert(m.agrees_on(m1, tree_ids(ks[k]).to_set())) by {
                assert forall|x: NodeId| tree_ids(ks[k]).to_set().contains(x) implies (m.live(x) == m1.live(x)
                    && (m.live(x) ==> m.nodes[x] == m1.nodes[x])) by {
                    assert(tree_ids(ks[k]).contains(x));
                }
            }
            crate::tree::lemma_tree_frame(m, m1, ks[k], false);
        }
    }
}

/// The nodes of `cut(t, c)` are nodes of `t`, and it has no repeats.
pub proof fn lemma_cut_ids(t: Tree, c: NodeId)
    requires
        nd(t),
    ensures
        forall|y: NodeId| #[trigger] tree_ids(cut(t, c)).contains(y) ==> tree_ids(t).contains(y),
        nd(cut(t, c)),
        cut(t, c).id == t.id,
    decreases t,
{
    let ks = t.kids;
    lemma_tree_contains(t, c);
    if !tree_ids(t).contains(c) || c == t.id {
        assert forall|k: int| 0 <= k < ks.len() implies !tree_ids(#[trigger] ks[k]).contains(c) by {
            if c == t.id { assert(!tree_ids(ks[k]).contains(t.id)); }
        }
        lemma_cut_forest_noop(ks, c);
        assert(cut(t, c) == t);
    } else {
        let j = choose|j: int| 0 <= j < ks.len() && #[trigger] tree_ids(ks[j]).contains(c);
        assert forall|k: int| 0 <= k < ks.len() && k != j implies !tree_ids(#[trigger] ks[k]).contains(c) by {
            if k < j { assert(disjoint(ks[k], ks[j])); } else { assert(disjoint(ks[j], ks[k])); }
        }
        let t2 = cut(t, c);
        if ks[j].id == c {
            lemma_cut_forest_remove(ks, j, c);
            let ks2 = ks.remove(j);
            assert forall|y: NodeId| #[trigger] tree_ids(t2).contains(y) implies tree_ids(t).contains(y) by {
                lemma_tree_contains(t2, y);
                lemma_tree_contains(t, y);
                if y != t.id {
                    let k = choose|k: int| 0 <= k < ks2.len() && #[trigger] tree_ids(ks2[k]).contains(y);
                    let k0 = if k < j { k } else { k + 1 };
                    assert(ks2[k] == ks[k0]);
                }
            }
            assert forall|k: int| 0 <= k < ks2.len() implies nd(#[trigger] ks2[k]) && !tree_ids(ks2[k]).contains(t.id) by {
                let k0 = if k < j { k } else { k + 1 };
                assert(ks2[k] == ks[k0]);
            }
            assert forall|k: int, l: int| 0 <= k < l < ks2.len() implies disjoint(#[trigger] ks2[k], #[trigger] ks2[l]) by {
                let k0 = if k < j { k } else { k + 1 };
                let l0 = if l < j { l } else { l + 1 };
                assert(ks2[k] == ks[k0]);
                assert(ks2[l] == ks[l0]);
                assert(disjoint(ks[k0], ks[l0]));
            }
        } else {
            lemma_cut_forest_update(ks, j, c);
            lemma_cut_ids(ks[j], c);
            let ks2 = ks.update(j, cut(ks[j], c));
            assert forall|y: NodeId| #[trigger] tree_ids(t2).contains(y) implies tree_ids(t).contains(y) by {
                lemma_tree_contains(t2, y);
                lemma_tree_contains(t, y);
                if y != t.id {
                    let k = choose|k: int| 0 <= k < ks2.len() && #[trigger] tree_ids(ks2[k]).contains(y);
                    if k == j {
                        assert(tree_ids(ks[j]).contains(y));
                    } else {
                        assert(ks2[k] == ks[k]);
                    }
                }
            }
            assert forall|k: int| 0 <= k < ks2.len() implies nd(#[trigger] ks2[k]) && !tree_ids(ks2[k]).contains(t.id) by {
                if k != j { assert(ks2[k] == ks[k]); }
            }
            assert forall|k: int, l: int| 0 <= k < l < ks2.len() implies disjoint(#[trigger] ks2[k], #[trigger] ks2[l]) by {
                assert(disjoint(ks[k], ks[l]));
                if k == j {
                    assert(ks2[l] == ks[l]);
                } else if l == j {
                    assert(ks2[k] == ks[k]);
                } else {
                    assert(ks2[k] == ks[k]);
                    assert(ks2[l] == ks[l]);
                }
            }
        }
    }
}

/// The subtree of `t` rooted at its node `x`; when `x` is not the root, its nodes are
/// gone from `cut(t, x)`.
pub proof fn lemma_subtree(m: StoreView, t: Tree, x: NodeId) -> (s: Tree)
    requires
        m.tree_valid(t, false),
        nd(t),
        tree_ids(t).contains(x),
    ensures
        s.id == x,
        m.tree_valid(s, false),
        nd(s),
        forall|y: NodeId| #[trigger] tree_ids(s).contains(y) ==> tree_ids(t).contains(y),
        x != t.id ==> forall|y: NodeId| #[trigger] tree_ids(s).contains(y) ==> !tree_ids(cut(t, x)).contains(y),
    decreases t,
{
    lemma_tree_contains(t, x);
    if x == t.id {
        t
    } else {
        let ks = t.kids;
        let j = choose|j: int| 0 <= j < ks.len() && #[trigger] tree_ids(ks[j]).contains(x);
        let s = lemma_subtree(m, ks[j], x);
        assert forall|k: int| 0 <= k < ks.len() && k != j implies !tree_ids(#[trigger] ks[k]).contains(x) by {
            if k < j { assert(disjoint(ks[k], ks[j])); } else { assert(disjoint(ks[j], ks[k])); }
        }
        assert forall|y: NodeId| #[trigger] tree_ids(s).contains(y) implies tree_ids(t).contains(y) by {
            lemma_tree_contains(t, y);
        }
        let t2 = cut(t, x);
        if ks[j].id == x {
            lemma_cut_forest_remove(ks, j, x);
            let ks2 = ks.remove(j);
            assert forall|y: NodeId| #[trigger] tree_ids(s).contains(y) implies !tree_ids(t2).contains(y) by {
                lemma_tree_contains(t2, y);
                assert(y != t.id);
                if tree_ids(t2).contains(y) {
                    let k = choose|k: int| 0 <= k < ks2.len() && #[trigger] tree_ids(ks2[k]).contains(y);
                    let k0 = if k < j { k } else { k + 1 };
                    assert(ks2[k] == ks[k0]);
                    if k0 < j { assert(disjoint(ks[k0], ks[j])); } else { assert(disjoint(ks[j], ks[k0])); }
                }
            }
        } else {
            lemma_cut_forest_update(ks, j, x);
            let ks2 = ks.update(j, cut(ks[j], x));
            assert forall|y: NodeId| #[trigger] tree_ids(s).contains(y) implies !tree_ids(t2).contains(y) by {
                lemma_tree_contains(t2, y);
                assert(y != t.id);
                if tree_ids(t2).contains(y) {
                    let k = choose|k: int| 0 <= k < ks2.len() && #[trigger] tree_ids(ks2[k]).contains(y);
                    if k != j {
                        assert(ks2[k] == ks[k]);
                        if k < j { assert(disjoint(ks[k], ks[j])); } else { assert(disjoint(ks[j], ks[k])); }
                    }
                }
            }
        }
        s
    }
}

/// The part of `t` that its root owns: everything but what lies below a reference.
pub open spec fn own(m: StoreView, t: Tree) -> Tree
    decreases t, 1nat,
{
    if spec_is_reference(m.nodes[t.id].ty) {
        Tree { id: t.id, kids: Seq::empty() }
    } else {
        Tree { id: t.id, kids: own_forest(m, t.kids) }
    }
}

pub open spec fn own_forest(m: StoreView, ts: Seq<Tree>) -> Seq<Tree>
    decreases ts, 0nat,
{
    if ts.len() == 0 {
        ts
    } else {
        seq![own(m, ts[0])] + own_forest(m, ts.drop_first())
    }
}

pub proof fn lemma_own_forest_index(m: StoreView, ts: Seq<Tree>)
    ensures
        own_forest(m, ts).len() == ts.len(),
        forall|k: int| 0 <= k < ts.len() ==> #[trigger] own_forest(m, ts)[k] == own(m, ts[k]),
        forall|k: int| 0 <= k < ts.len() ==> own(m, #[trigger] ts[k]).id == ts[k].id,
    decreases ts,
{
    if ts.len() > 0 {
        let rest = ts.drop_first();
        lemma_own_forest_index(m, rest);
        assert forall|k: int| 0 <= k < ts.len() implies #[trigger] own_forest(m, ts)[k] == own(m, ts[k]) by {
            if k > 0 {
                assert(rest[k - 1] == ts[k]);
            }
        }
    }
}

/// The owned part of a valid tree without repeats is valid for the walk that deletes, over
/// nodes of the tree, without repeats.
pub proof fn lemma_own_valid(m: StoreView, t: Tree)
    requires
        m.tree_valid(t, false),
        nd(t),
    ensures
        m.tree_valid(own(m, t), true),
        own(m, t).id == t.id,
        nd(own(m, t)),
        forall|y: NodeId| #[trigger] tree_ids(own(m, t)).contains(y) ==> tree_ids(t).contains(y),
    decreases t,
{
    let o = own(m, t);
    lemma_tree_contains(t, t.id);
    if spec_is_reference(m.nodes[t.id].ty) {
        assert(tree_ids(o) =~= seq![t.id]) by {
            assert(forest_ids(o.kids) =~= Seq::<NodeId>::empty());
        }
        assert(tops(o.kids) =~= Seq::<NodeId>::empty());
    } else {
        let ks = t.kids;
        let ks2 = o.kids;
        lemma_own_forest_index(m, ks);
        assert forall|k: int| 0 <= k < ks.len() implies m.tree_valid(#[trigger] ks2[k], true) && nd(ks2[k])
            && (forall|y: NodeId| #[trigger] tree_ids(ks2[k]).contains(y) ==> tree_ids(ks[k]).contains(y)) by {
            lemma_own_valid(m, ks[k]);
        }
        assert(tops(ks2) =~= tops(ks));
        assert forall|y: NodeId| #[trigger] tree_ids(o).contains(y) implies tree_ids(t).contains(y) by {
            lemma_tree_contains(o, y);
            lemma_tree_contains(t, y);
            if y != t.id {
                let k = choose|k: int| 0 <= k < ks2.len() && #[trigger] tree_ids(ks2[k]).contains(y);
                assert(tree_ids(ks[k]).contains(y));
            }
        }
        assert forall|k: int| 0 <= k < ks2.len() implies !tree_ids(#[trigger] ks2[k]).contains(t.id) by {
            assert(!tree_ids(ks[k]).contains(t.id));
        }
        assert forall|k: int, l: int| 0 <= k < l < ks2.len() implies disjoint(#[trigger] ks2[k], #[trigger] ks2[l]) by {
            assert(disjoint(ks[k], ks[l]));
        }
    }
}

} // verus!
