//! Sibling chains and trees over a [`StoreView`], and the facts about them that the
//! store operations rest on.
use vstd::prelude::*;
use crate::store::{NodeId, StrId, StoreView, NodeData};
use crate::types::{spec_is_reference, spec_string_is_const};

verus! {

/// A finite tree of node handles: a node and the trees of its children, in order.
pub struct Tree {
    pub id: NodeId,
    pub kids: Seq<Tree>,
}

/// The handles of the roots of a forest.
pub open spec fn tops(ts: Seq<Tree>) -> Seq<NodeId> {
    ts.map_values(|t: Tree| t.id)
}

/// Every handle of a tree, in pre-order.
pub open spec fn tree_ids(t: Tree) -> Seq<NodeId>
    decreases t,
{
    seq![t.id] + forest_ids(t.kids)
}

/// Every handle of a forest, in pre-order.
pub open spec fn forest_ids(ts: Seq<Tree>) -> Seq<NodeId>
    decreases ts,
{
    if ts.len() == 0 {
        seq![]
    } else {
        tree_ids(ts[0]) + forest_ids(ts.drop_first())
    }
}

impl StoreView {
    /// `s` lists the chain of `next` links from `head`: live, distinct nodes, the last
    /// one without a successor.
    pub open spec fn is_chain(self, head: Option<NodeId>, s: Seq<NodeId>) -> bool {
        &&& (s.len() == 0) == (head is None)
        &&& s.len() > 0 ==> head == Some(s[0])
        &&& forall|i: int| 0 <= i < s.len() ==> self.live(#[trigger] s[i])
        &&& forall|i: int| 0 <= i < s.len() - 1 ==> self.nodes[#[trigger] s[i]].next == Some(s[i + 1])
        &&& s.len() > 0 ==> self.nodes[s.last()].next is None
        &&& s.no_duplicates()
    }

    /// A chain whose `prev` links are as the store keeps them: the first node's `prev` is the
    /// last node, every other node's `prev` is its predecessor.
    pub open spec fn is_list(self, head: Option<NodeId>, s: Seq<NodeId>) -> bool {
        &&& self.is_chain(head, s)
        &&& s.len() > 0 ==> self.nodes[s[0]].prev == Some(s.last())
        &&& forall|i: int| 0 < i < s.len() ==> self.nodes[#[trigger] s[i]].prev == Some(s[i - 1])
    }

    /// Whether a walk down from this node follows its `child` link: always when printing
    /// or comparing; when deleting (`owned`), not below a reference.
    pub open spec fn descends(self, id: NodeId, owned: bool) -> bool {
        !(owned && spec_is_reference(self.nodes[id].ty))
    }

    /// `t` is the tree below `t.id`: every node live, every child chain as listed.
    pub open spec fn tree_valid(self, t: Tree, owned: bool) -> bool
        decreases t,
    {
        &&& self.live(t.id)
        &&& if self.descends(t.id, owned) {
            self.forest_valid(self.nodes[t.id].child, t.kids, owned)
        } else {
            t.kids.len() == 0
        }
    }

    /// `ts` is the forest hanging from the chain that starts at `head`.
    pub open spec fn forest_valid(self, head: Option<NodeId>, ts: Seq<Tree>, owned: bool) -> bool
        decreases ts,
    {
        &&& self.is_chain(head, tops(ts))
        &&& forall|i: int| 0 <= i < ts.len() ==> self.tree_valid(#[trigger] ts[i], owned)
    }

    /// The strings a node owns: its value unless it is a reference, its key unless constant.
    pub open spec fn node_strs(self, id: NodeId) -> Set<StrId> {
        let d = self.nodes[id];
        let v = if !spec_is_reference(d.ty) && d.valuestring is Some {
            set![d.valuestring.unwrap()]
        } else {
            Set::empty()
        };
        let k = if !spec_string_is_const(d.ty) && d.key is Some {
            set![d.key.unwrap()]
        } else {
            Set::empty()
        };
        v + k
    }

    pub open spec fn tree_strs(self, t: Tree) -> Set<StrId>
        decreases t,
    {
        self.node_strs(t.id) + self.forest_strs(t.kids)
    }

    pub open spec fn forest_strs(self, ts: Seq<Tree>) -> Set<StrId>
        decreases ts,
    {
        if ts.len() == 0 {
            Set::empty()
        } else {
            self.tree_strs(ts[0]) + self.forest_strs(ts.drop_first())
        }
    }

    /// The store after deleting the forest `ts`: its nodes and the strings they own are gone.
    pub open spec fn after_delete(self, ts: Seq<Tree>) -> StoreView {
        StoreView {
            nodes: self.nodes.remove_keys(forest_ids(ts).to_set()),
            strings: self.strings.remove_keys(self.forest_strs(ts)),
            ..self
        }
    }

    /// The chain of `next` links from `head` is finite and acyclic.
    pub open spec fn has_chain(self, head: Option<NodeId>) -> bool {
        exists|s: Seq<NodeId>| self.is_chain(head, s)
    }

    /// The nodes of the chain from `head`.
    pub open spec fn chain(self, head: Option<NodeId>) -> Seq<NodeId> {
        choose|s: Seq<NodeId>| self.is_chain(head, s)
    }

    /// The children of `p`, in order.
    pub open spec fn children(self, p: NodeId) -> Seq<NodeId> {
        self.chain(self.nodes[p].child)
    }

    /// The forest below the chain from `head` is finite, and (when `owned`) no node of it
    /// is reached twice.
    pub open spec fn has_forest(self, head: Option<NodeId>, owned: bool) -> bool {
        exists|ts: Seq<Tree>| self.forest_valid(head, ts, owned) && forest_ids(ts).no_duplicates()
    }

    pub open spec fn forest(self, head: Option<NodeId>, owned: bool) -> Seq<Tree> {
        choose|ts: Seq<Tree>| self.forest_valid(head, ts, owned) && forest_ids(ts).no_duplicates()
    }

    /// `m2` holds every node of `ids` as `self` does.
    pub open spec fn agrees_on(self, m2: StoreView, ids: Set<NodeId>) -> bool {
        forall|id: NodeId| ids.contains(id) ==> (self.live(id) == m2.live(id)
            && (self.live(id) ==> self.nodes[id] == m2.nodes[id]))
    }
}

pub proof fn lemma_chain_unique(m: StoreView, head: Option<NodeId>, s1: Seq<NodeId>, s2: Seq<NodeId>)
    requires
        m.is_chain(head, s1),
        m.is_chain(head, s2),
    ensures
        s1 == s2,
{
    assert forall|i: int| 0 <= i < s1.len() && i < s2.len() implies s1[i] == s2[i] by {
        lemma_chain_prefix_eq(m, head, s1, s2, i);
    }
    if s1.len() < s2.len() {
        assert(s1[s1.len() - 1] == s2[s1.len() - 1]);
        assert(m.nodes[s2[s1.len() - 1]].next == Some(s2[s1.len() as int]));
    } else if s2.len() < s1.len() {
        assert(s1[s2.len() - 1] == s2[s2.len() - 1]);
        assert(m.nodes[s1[s2.len() - 1]].next == Some(s1[s2.len() as int]));
    }
    assert(s1 =~= s2);
}

proof fn lemma_chain_prefix_eq(m: StoreView, head: Option<NodeId>, s1: Seq<NodeId>, s2: Seq<NodeId>, i: int)
    requires
        m.is_chain(head, s1),
        m.is_chain(head, s2),
        0 <= i < s1.len(),
        i < s2.len(),
    ensures
        s1[i] == s2[i],
    decreases i,
{
    if i > 0 {
        lemma_chain_prefix_eq(m, head, s1, s2, i - 1);
        assert(m.nodes[s1[i - 1]].next == Some(s1[i]));
        assert(m.nodes[s2[i - 1]].next == Some(s2[i]));
    }
}

pub proof fn lemma_forest_ids_append(a: Seq<Tree>, b: Seq<Tree>)
    ensures
        forest_ids(a + b) == forest_ids(a) + forest_ids(b),
    decreases a.len(),
{
    if a.len() == 0 {
        assert(a + b =~= b);
        assert(forest_ids(a) =~= Seq::<NodeId>::empty());
        assert(forest_ids(a) + forest_ids(b) =~= forest_ids(b));
    } else {
        assert((a + b).drop_first() =~= a.drop_first() + b);
        assert((a + b)[0] == a[0]);
        lemma_forest_ids_append(a.drop_first(), b);
        assert(forest_ids(a + b) =~= forest_ids(a) + forest_ids(b));
    }
}

pub proof fn lemma_forest_strs_append(m: StoreView, a: Seq<Tree>, b: Seq<Tree>)
    ensures
        m.forest_strs(a + b) == m.forest_strs(a) + m.forest_strs(b),
    decreases a.len(),
{
    if a.len() == 0 {
        assert(a + b =~= b);
        assert(m.forest_strs(a) + m.forest_strs(b) =~= m.forest_strs(b));
    } else {
        assert((a + b).drop_first() =~= a.drop_first() + b);
        assert((a + b)[0] == a[0]);
        lemma_forest_strs_append(m, a.drop_first(), b);
        assert(m.forest_strs(a + b) =~= m.forest_strs(a) + m.forest_strs(b));
    }
}

/// A forest of one tree.
pub proof fn lemma_forest_single(m: StoreView, t: Tree)
    ensures
        forest_ids(seq![t]) == tree_ids(t),
        m.forest_strs(seq![t]) == m.tree_strs(t),
{
    let e = Seq::<Tree>::empty();
    assert(seq![t].drop_first() =~= e);
    assert(seq![t][0] == t);
    assert(forest_ids(e) =~= Seq::<NodeId>::empty());
    assert(m.forest_strs(e) =~= Set::<StrId>::empty());
    assert(forest_ids(seq![t]) =~= tree_ids(t));
    assert(m.forest_strs(seq![t]) =~= m.tree_strs(t));
}

/// The ids of `ts[k]` appear within the forest ids.
pub proof fn lemma_forest_ids_split(ts: Seq<Tree>, k: int)
    requires
        0 <= k < ts.len(),
    ensures
        forest_ids(ts) == forest_ids(ts.take(k)) + tree_ids(ts[k]) + forest_ids(ts.skip(k + 1)),
{
    assert(ts =~= ts.take(k) + (seq![ts[k]] + ts.skip(k + 1)));
    lemma_forest_ids_append(ts.take(k), seq![ts[k]] + ts.skip(k + 1));
    lemma_forest_ids_append(seq![ts[k]], ts.skip(k + 1));
    lemma_forest_single(StoreView { nodes: Map::empty(), strings: Map::empty(), str_slots: 0, fail_allocs: false }, ts[k]);
    assert(forest_ids(ts) =~= forest_ids(ts.take(k)) + tree_ids(ts[k]) + forest_ids(ts.skip(k + 1)));
}

pub proof fn lemma_concat_to_set<A>(a: Seq<A>, b: Seq<A>)
    ensures
        (a + b).to_set() == a.to_set() + b.to_set(),
{
    assert forall|x: A| (a + b).to_set().contains(x) implies (a.to_set() + b.to_set()).contains(x) by {
        let j = choose|j: int| 0 <= j < (a + b).len() && (a + b)[j] == x;
        if j < a.len() {
            assert(a[j] == x);
        } else {
            assert(b[j - a.len()] == x);
        }
    }
    assert forall|x: A| (a.to_set() + b.to_set()).contains(x) implies (a + b).to_set().contains(x) by {
        if a.to_set().contains(x) {
            let j = choose|j: int| 0 <= j < a.len() && a[j] == x;
            assert((a + b)[j] == x);
        } else {
            let j = choose|j: int| 0 <= j < b.len() && b[j] == x;
            assert((a + b)[j + a.len()] == x);
        }
    }
    assert((a + b).to_set() =~= a.to_set() + b.to_set());
}

pub proof fn lemma_agree_sub(m1: StoreView, m2: StoreView, a: Set<NodeId>, b: Set<NodeId>)
    requires
        m1.agrees_on(m2, a),
        b.subset_of(a),
    ensures
        m1.agrees_on(m2, b),
{
}

/// A forest whose nodes `m2` holds as `m1` does is as valid in `m2`, and owns the same strings.
pub proof fn lemma_forest_frame(m1: StoreView, m2: StoreView, head: Option<NodeId>, ts: Seq<Tree>, owned: bool)
    requires
        m1.forest_valid(head, ts, owned),
        m1.agrees_on(m2, forest_ids(ts).to_set()),
    ensures
        m2.forest_valid(head, ts, owned),
        m2.forest_strs(ts) == m1.forest_strs(ts),
        forall|i: int| 0 <= i < ts.len() ==> m2.nodes[#[trigger] ts[i].id] == m1.nodes[ts[i].id],
    decreases ts,
{
    if ts.len() > 0 {
        let t = ts[0];
        let rest = ts.drop_first();
        assert(forest_ids(ts) == tree_ids(t) + forest_ids(rest));
        lemma_concat_to_set(tree_ids(t), forest_ids(rest));
        lemma_agree_sub(m1, m2, forest_ids(ts).to_set(), tree_ids(t).to_set());
        lemma_agree_sub(m1, m2, forest_ids(ts).to_set(), forest_ids(rest).to_set());
        assert(m1.tree_valid(t, owned));
        lemma_tree_frame(m1, m2, t, owned);
        assert(m1.forest_valid(head, ts, owned));
        assert(forall|i: int| 0 <= i < rest.len() ==> rest[i] == ts[i + 1]);
        let nh = m1.nodes[t.id].next;
        assert(m1.is_chain(nh, tops(rest))) by {
            assert(tops(rest) =~= tops(ts).drop_first());
        }
        lemma_forest_frame(m1, m2, nh, rest, owned);
        let s = tops(ts);
        assert forall|i: int| 0 <= i < s.len() implies m2.live(#[trigger] s[i]) && m2.nodes[s[i]] == m1.nodes[s[i]] by {
            if i == 0 {
                assert(tree_ids(t)[0] == t.id);
            } else {
                assert(s[i] == tops(rest)[i - 1]);
                assert(rest[i - 1] == ts[i]);
            }
        }
        assert(m2.is_chain(head, s));
        assert forall|i: int| 0 <= i < ts.len() implies m2.tree_valid(#[trigger] ts[i], owned)
            && m2.nodes[ts[i].id] == m1.nodes[ts[i].id] by {
            if i > 0 {
                assert(ts[i] == rest[i - 1]);
            }
        }
    } else {
        assert(tops(ts) =~= Seq::<NodeId>::empty());
    }
}

pub proof fn lemma_tree_frame(m1: StoreView, m2: StoreView, t: Tree, owned: bool)
    requires
        m1.tree_valid(t, owned),
        m1.agrees_on(m2, tree_ids(t).to_set()),
    ensures
        m2.tree_valid(t, owned),
        m2.tree_strs(t) == m1.tree_strs(t),
        m2.nodes[t.id] == m1.nodes[t.id],
        m2.live(t.id),
    decreases t,
{
    assert(tree_ids(t)[0] == t.id);
    assert(tree_ids(t).to_set().contains(t.id));
    assert(forest_ids(t.kids).to_set().subset_of(tree_ids(t).to_set())) by {
        assert forall|x: NodeId| forest_ids(t.kids).to_set().contains(x) implies tree_ids(t).to_set().contains(x) by {
            let j = choose|j: int| 0 <= j < forest_ids(t.kids).len() && forest_ids(t.kids)[j] == x;
            assert(tree_ids(t)[j + 1] == x);
        }
    }
    if m1.descends(t.id, owned) {
        lemma_forest_frame(m1, m2, m1.nodes[t.id].child, t.kids, owned);
    } else {
        assert(t.kids =~= Seq::<Tree>::empty());
    }
    assert(m2.node_strs(t.id) == m1.node_strs(t.id));
}

} // verus!

verus! {

pub proof fn lemma_forest_unique(m: StoreView, head: Option<NodeId>, ts1: Seq<Tree>, ts2: Seq<Tree>, owned: bool)
    requires
        m.forest_valid(head, ts1, owned),
        m.forest_valid(head, ts2, owned),
    ensures
        ts1 == ts2,
    decreases ts1,
{
    lemma_chain_unique(m, head, tops(ts1), tops(ts2));
    assert(tops(ts1).len() == ts1.len());
    assert(tops(ts2).len() == ts2.len());
    assert forall|i: int| 0 <= i < ts1.len() implies ts1[i] == ts2[i] by {
        assert(tops(ts1)[i] == ts1[i].id);
        assert(tops(ts2)[i] == ts2[i].id);
        assert(m.tree_valid(ts1[i], owned));
        assert(m.tree_valid(ts2[i], owned));
        lemma_tree_unique(m, ts1[i], ts2[i], owned);
    }
    assert(ts1 =~= ts2);
}

pub proof fn lemma_tree_unique(m: StoreView, t1: Tree, t2: Tree, owned: bool)
    requires
        m.tree_valid(t1, owned),
        m.tree_valid(t2, owned),
        t1.id == t2.id,
    ensures
        t1 == t2,
    decreases t1,
{
    if m.descends(t1.id, owned) {
        lemma_forest_unique(m, m.nodes[t1.id].child, t1.kids, t2.kids, owned);
    } else {
        assert(t1.kids =~= t2.kids);
    }
}

/// The forest that `has_forest` speaks of is the one a caller knows.
pub proof fn lemma_forest_is(m: StoreView, head: Option<NodeId>, ts: Seq<Tree>, owned: bool)
    requires
        m.forest_valid(head, ts, owned),
        forest_ids(ts).no_duplicates(),
    ensures
        m.has_forest(head, owned),
        m.forest(head, owned) == ts,
{
    assert(m.forest_valid(head, ts, owned) && forest_ids(ts).no_duplicates());
    let c = m.forest(head, owned);
    lemma_forest_unique(m, head, c, ts, owned);
}

/// The chain of a valid forest.
pub proof fn lemma_chain_is(m: StoreView, head: Option<NodeId>, s: Seq<NodeId>)
    requires
        m.is_chain(head, s),
    ensures
        m.has_chain(head),
        m.chain(head) == s,
{
    let c = m.chain(head);
    lemma_chain_unique(m, head, c, s);
}

} // verus!

verus! {

/// Facts about a duplicate-free concatenation of three sequences.
pub proof fn lemma_nodup_split<A>(a: Seq<A>, b: Seq<A>, c: Seq<A>)
    requires
        (a + b + c).no_duplicates(),
    ensures
        a.no_duplicates(),
        b.no_duplicates(),
        c.no_duplicates(),
        forall|x: A| #[trigger] b.contains(x) ==> !a.contains(x) && !c.contains(x),
        forall|x: A| #[trigger] a.contains(x) ==> !c.contains(x),
{
    let s = a + b + c;
    assert forall|i: int, j: int| 0 <= i < j < b.len() implies b[i] != b[j] by {
        assert(s[a.len() + i] == b[i]);
        assert(s[a.len() + j] == b[j]);
    }
    assert forall|i: int, j: int| 0 <= i < j < a.len() implies a[i] != a[j] by {
        assert(s[i] == a[i]);
        assert(s[j] == a[j]);
    }
    assert forall|i: int, j: int| 0 <= i < j < c.len() implies c[i] != c[j] by {
        assert(s[a.len() + b.len() + i] == c[i]);
        assert(s[a.len() + b.len() + j] == c[j]);
    }
    assert forall|x: A| #[trigger] b.contains(x) implies !a.contains(x) && !c.contains(x) by {
        let j = choose|j: int| 0 <= j < b.len() && b[j] == x;
        assert(s[a.len() + j] == x);
        if a.contains(x) {
            let i = choose|i: int| 0 <= i < a.len() && a[i] == x;
            assert(s[i] == x);
        }
        if c.contains(x) {
            let i = choose|i: int| 0 <= i < c.len() && c[i] == x;
            assert(s[a.len() + b.len() + i] == x);
        }
    }
    assert forall|x: A| #[trigger] a.contains(x) implies !c.contains(x) by {
        let j = choose|j: int| 0 <= j < a.len() && a[j] == x;
        assert(s[j] == x);
        if c.contains(x) {
            let i = choose|i: int| 0 <= i < c.len() && c[i] == x;
            assert(s[a.len() + b.len() + i] == x);
        }
    }
}

/// The root of every tree of a forest is among its ids.
pub proof fn lemma_tops_in_ids(ts: Seq<Tree>)
    ensures
        forall|k: int| 0 <= k < ts.len() ==> forest_ids(ts).contains(#[trigger] ts[k].id),
{
    assert forall|k: int| 0 <= k < ts.len() implies forest_ids(ts).contains(#[trigger] ts[k].id) by {
        lemma_forest_ids_split(ts, k);
        assert(tree_ids(ts[k])[0] == ts[k].id);
        assert(forest_ids(ts)[forest_ids(ts.take(k)).len() as int] == ts[k].id);
    }
}

/// The ids below one tree of a forest are ids of the forest.
pub proof fn lemma_kids_in_ids(ts: Seq<Tree>, i: int)
    requires
        0 <= i < ts.len(),
    ensures
        forall|id: NodeId| #[trigger] forest_ids(ts[i].kids).contains(id) ==> forest_ids(ts).contains(id),
        forall|id: NodeId| #[trigger] tree_ids(ts[i]).contains(id) ==> forest_ids(ts).contains(id),
{
    lemma_forest_ids_split(ts, i);
    let a = forest_ids(ts.take(i));
    assert(tree_ids(ts[i]) == seq![ts[i].id] + forest_ids(ts[i].kids));
    assert forall|id: NodeId| #[trigger] tree_ids(ts[i]).contains(id) implies forest_ids(ts).contains(id) by {
        let j = choose|j: int| 0 <= j < tree_ids(ts[i]).len() && tree_ids(ts[i])[j] == id;
        assert(forest_ids(ts)[a.len() + j] == id);
    }
    assert forall|id: NodeId| #[trigger] forest_ids(ts[i].kids).contains(id) implies forest_ids(ts).contains(id) by {
        let j = choose|j: int| 0 <= j < forest_ids(ts[i].kids).len() && forest_ids(ts[i].kids)[j] == id;
        assert(tree_ids(ts[i])[j + 1] == id);
        assert(tree_ids(ts[i]).contains(id));
    }
}

/// In a forest without repeated ids, no node below a tree is the root of a tree.
pub proof fn lemma_kid_not_top(ts: Seq<Tree>, i: int)
    requires
        0 <= i < ts.len(),
        forest_ids(ts).no_duplicates(),
    ensures
        forall|id: NodeId, k: int| #![trigger forest_ids(ts[i].kids).contains(id), ts[k]] forest_ids(ts[i].kids).contains(id) && 0 <= k < ts.len() ==> ts[k].id != id,
        !forest_ids(ts[i].kids).contains(ts[i].id),
{
    lemma_forest_ids_split(ts, i);
    let a = forest_ids(ts.take(i));
    let b = tree_ids(ts[i]);
    let c = forest_ids(ts.skip(i + 1));
    lemma_nodup_split(a, b, c);
    lemma_tops_in_ids(ts.take(i));
    lemma_tops_in_ids(ts.skip(i + 1));
    assert(b == seq![ts[i].id] + forest_ids(ts[i].kids));
    assert forall|id: NodeId, k: int| #![trigger forest_ids(ts[i].kids).contains(id), ts[k]] forest_ids(ts[i].kids).contains(id) && 0 <= k < ts.len() implies ts[k].id != id by {
        let j = choose|j: int| 0 <= j < forest_ids(ts[i].kids).len() && forest_ids(ts[i].kids)[j] == id;
        assert(b[j + 1] == id);
        assert(b.contains(id));
        if k < i {
            assert(ts.take(i)[k] == ts[k]);
        } else if k > i {
            assert(ts.skip(i + 1)[k - i - 1] == ts[k]);
        } else {
            assert(b[0] == ts[i].id);
        }
    }
    if forest_ids(ts[i].kids).contains(ts[i].id) {
        let j = choose|j: int| 0 <= j < forest_ids(ts[i].kids).len() && forest_ids(ts[i].kids)[j] == ts[i].id;
        assert(b[j + 1] == ts[i].id);
        assert(b[0] == ts[i].id);
    }
}

} // verus!

verus! {

impl StoreView {
    /// The tree below `id` is finite.
    pub open spec fn has_tree(self, id: NodeId, owned: bool) -> bool {
        exists|t: Tree| t.id == id && self.tree_valid(t, owned)
    }

    pub open spec fn tree_of(self, id: NodeId, owned: bool) -> Tree {
        choose|t: Tree| t.id == id && self.tree_valid(t, owned)
    }
}

/// The tree that `has_tree` speaks of is the one a caller knows.
pub proof fn lemma_tree_is(m: StoreView, t: Tree, owned: bool)
    requires
        m.tree_valid(t, owned),
    ensures
        m.has_tree(t.id, owned),
        m.tree_of(t.id, owned) == t,
{
    assert(t.id == t.id && m.tree_valid(t, owned));
    let c = m.tree_of(t.id, owned);
    lemma_tree_unique(m, c, t, owned);
}

} // verus!
