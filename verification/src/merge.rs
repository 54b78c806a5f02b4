//! Generating a JSON merge patch (RFC 7396) that takes one document to another: the members of the two objects are walked in
//! byte order of their keys (after sorting both in place).
use vstd::prelude::*;
use crate::store::{NodeId, SafeStore, StoreView};
use crate::tree::{Tree, tree_ids};
use crate::types::{spec_type_kind, NULL, OBJECT};
use crate::compare::{eq_ok, tsz, lemma_kid_smaller, lemma_ready_root};
use crate::utils::lex;
use crate::equal::{cj_ready, disjoint, same_data, lemma_tree_contains};
use crate::dup::strs_live;
use crate::dom::listed;
use crate::diff::{Move, key_or_empty, base_post, diff_ready, same_but_sibs, strs_grow, move_below};

verus! {

/// The walk over the members of two objects from `ta.kids[i]` and `tb.kids[j]` on, in
/// byte order of their keys (an absent key reads as empty): the smaller key moves first,
/// equal keys make a pair.
pub open spec fn mp_walk(m: StoreView, ta: Tree, tb: Tree, i: int, j: int) -> Seq<Move>
    decreases (ta.kids.len() - i) + (tb.kids.len() - j),
{
    if i < 0 || j < 0 || i > ta.kids.len() || j > tb.kids.len() || (i == ta.kids.len() && j == tb.kids.len()) {
        Seq::empty()
    } else if i == ta.kids.len() {
        seq![Move::Add(j)] + mp_walk(m, ta, tb, i, j + 1)
    } else if j == tb.kids.len() {
        seq![Move::Remove(i)] + mp_walk(m, ta, tb, i + 1, j)
    } else {
        let d = lex(key_or_empty(m, ta.kids[i].id), key_or_empty(m, tb.kids[j].id));
        if d == 0 {
            seq![Move::Both(i, j)] + mp_walk(m, ta, tb, i + 1, j + 1)
        } else if d < 0 {
            seq![Move::Remove(i)] + mp_walk(m, ta, tb, i + 1, j)
        } else {
            seq![Move::Add(j)] + mp_walk(m, ta, tb, i, j + 1)
        }
    }
}

/// The walk reads only the number of children and their keys.
pub proof fn lemma_mp_walk_frame(m1: StoreView, m2: StoreView, ta1: Tree, tb1: Tree, ta2: Tree, tb2: Tree, i: int, j: int)
    requires
        ta2.kids.len() == ta1.kids.len(),
        tb2.kids.len() == tb1.kids.len(),
        forall|k: int| 0 <= k < ta1.kids.len() ==> #[trigger] m2.key_of(ta2.kids[k].id) == m1.key_of(ta1.kids[k].id),
        forall|k: int| 0 <= k < tb1.kids.len() ==> #[trigger] m2.key_of(tb2.kids[k].id) == m1.key_of(tb1.kids[k].id),
    ensures
        mp_walk(m1, ta1, tb1, i, j) == mp_walk(m2, ta2, tb2, i, j),
    decreases (ta1.kids.len() - i) + (tb1.kids.len() - j),
{
    if i < 0 || j < 0 || i > ta1.kids.len() || j > tb1.kids.len() || (i == ta1.kids.len() && j == tb1.kids.len()) {
    } else {
        if i < ta1.kids.len() && j < tb1.kids.len() {
            lemma_mp_walk_frame(m1, m2, ta1, tb1, ta2, tb2, i + 1, j + 1);
        }
        if i < ta1.kids.len() {
            lemma_mp_walk_frame(m1, m2, ta1, tb1, ta2, tb2, i + 1, j);
        }
        if j < tb1.kids.len() {
            lemma_mp_walk_frame(m1, m2, ta1, tb1, ta2, tb2, i, j + 1);
        }
    }
}

/// How a step changed only the two trees: `ta1`, `tb1` over the same nodes, ready, their
/// nodes' fields but for links kept; fresh nodes may have been added; no other node that
/// was live changed, and every string stayed.
pub open spec fn tree_post(m0: StoreView, m1: StoreView, ta: Tree, tb: Tree, ta1: Tree, tb1: Tree) -> bool {
    &&& ta1.id == ta.id
    &&& tb1.id == tb.id
    &&& forall|x: NodeId| #[trigger] tree_ids(ta1).contains(x) == tree_ids(ta).contains(x)
    &&& forall|x: NodeId| #[trigger] tree_ids(tb1).contains(x) == tree_ids(tb).contains(x)
    &&& mp_ready(m1, ta1, tb1)
    &&& forall|x: NodeId| #[trigger] m0.live(x) ==> m1.live(x)
    &&& forall|x: NodeId| m0.live(x) && !tree_ids(ta).contains(x) && !tree_ids(tb).contains(x)
        ==> #[trigger] m1.nodes[x] == m0.nodes[x]
    &&& forall|x: NodeId| (tree_ids(ta).contains(x) || tree_ids(tb).contains(x)) ==> #[trigger] same_data(m1.nodes[x], m0.nodes[x])
    &&& m1.nodes[ta.id].next == m0.nodes[ta.id].next
    &&& m1.nodes[ta.id].prev == m0.nodes[ta.id].prev
    &&& m1.nodes[tb.id].next == m0.nodes[tb.id].next
    &&& m1.nodes[tb.id].prev == m0.nodes[tb.id].prev
    &&& strs_grow(m0, m1)
    &&& m1.str_slots >= m0.str_slots
    &&& m1.fail_allocs == m0.fail_allocs
}

/// What generating a merge patch needs of the two documents: ready for the comparison,
/// with live strings, and no node in both.
pub open spec fn mp_ready(m: StoreView, ta: Tree, tb: Tree) -> bool {
    &&& cj_ready(m, ta)
    &&& cj_ready(m, tb)
    &&& disjoint(ta, tb)
    &&& strs_live(m, ta)
    &&& strs_live(m, tb)
}

/// The nodes of a ready tree are live.
proof fn lemma_ids_live(m: StoreView, t: Tree)
    requires
        cj_ready(m, t),
    ensures
        forall|x: NodeId| #[trigger] tree_ids(t).contains(x) ==> m.live(x),
{
    assert forall|x: NodeId| #[trigger] tree_ids(t).contains(x) implies m.live(x) by {
        crate::utils::lemma_tree_ids_live(m, t, x);
    }
}

/// The sorting comparison changed only the two trees.
pub proof fn lemma_cj_tree_post(m0: StoreView, m1: StoreView, ta: Tree, tb: Tree, ta1: Tree, tb1: Tree)
    requires
        mp_ready(m0, ta, tb),
        crate::equal::cj_post(m0, m1, ta, tb, ta1, tb1),
    ensures
        tree_post(m0, m1, ta, tb, ta1, tb1),
{
    lemma_ids_live(m0, ta);
    lemma_ids_live(m0, tb);
    assert forall|x: NodeId| #[trigger] tree_ids(ta1).contains(x) implies crate::dup::handles_live(m1, x) by {
        assert(tree_ids(ta).contains(x));
        assert(crate::dup::handles_live(m0, x));
        assert(same_data(m1.nodes[x], m0.nodes[x]));
    }
    assert forall|x: NodeId| #[trigger] tree_ids(tb1).contains(x) implies crate::dup::handles_live(m1, x) by {
        assert(tree_ids(tb).contains(x));
        assert(crate::dup::handles_live(m0, x));
        assert(same_data(m1.nodes[x], m0.nodes[x]));
    }
}

/// A step on the two trees alone, seen with the list of `p` beside them.
pub proof fn lemma_tree_base(m0: StoreView, m1: StoreView, ta: Tree, tb: Tree, ta1: Tree, tb1: Tree, p: NodeId)
    requires
        diff_ready(m0, ta, tb, p),
        tree_post(m0, m1, ta, tb, ta1, tb1),
    ensures
        base_post(m0, m1, ta, tb, ta1, tb1, p, Seq::empty()),
{
    lemma_ids_live(m0, ta);
    lemma_ids_live(m0, tb);
    let c = m0.children(p);
    crate::tree::lemma_chain_is(m0, m0.nodes[p].child, c);
    assert forall|x: NodeId| #[trigger] c.contains(x) implies m0.live(x) && !tree_ids(ta).contains(x) && !tree_ids(tb).contains(x) by {
        let i = choose|i: int| 0 <= i < c.len() && c[i] == x;
    }
    assert forall|i: int| 0 <= i < c.len() implies #[trigger] m1.nodes[c[i]] == m0.nodes[c[i]] && m1.live(c[i]) by {
        assert(c.contains(c[i]));
    }
    assert(m1.nodes[p] == m0.nodes[p]);
    lemma_listed_same(m0, m1, p);
    assert(m1.children(p) + Seq::<NodeId>::empty() =~= m0.children(p));
    assert forall|x: NodeId| #[trigger] m1.children(p).contains(x) implies !tree_ids(ta1).contains(x) && !tree_ids(tb1).contains(x) by {
        assert(c.contains(x));
    }
}

/// The list of `p` reads the same where `p` and its children are kept.
proof fn lemma_listed_same(before: StoreView, mid: StoreView, p: NodeId)
    requires
        listed(before, p),
        mid.nodes[p] == before.nodes[p],
        mid.live(p),
        forall|i: int| 0 <= i < before.children(p).len() ==> #[trigger] mid.nodes[before.children(p)[i]] == before.nodes[before.children(p)[i]]
            && mid.live(before.children(p)[i]),
    ensures
        listed(mid, p),
        mid.children(p) == before.children(p),
{
    let s = before.children(p);
    assert forall|i: int| 0 <= i < s.len() implies mid.live(#[trigger] s[i]) && mid.nodes[s[i]] == before.nodes[s[i]] by {
        assert(mid.nodes[before.children(p)[i]] == before.nodes[before.children(p)[i]]);
    }
    crate::tree::lemma_chain_is(before, before.nodes[p].child, s);
    assert(mid.is_chain(mid.nodes[p].child, s));
    crate::tree::lemma_chain_is(mid, mid.nodes[p].child, s);
}

/// Two steps that changed the trees and grew the list of `p` make one.
#[verifier::spinoff_prover]
#[verifier::rlimit(100)]
pub proof fn lemma_bpost_trans(
    m0: StoreView, m1: StoreView, m2: StoreView, ta: Tree, tb: Tree, ta1: Tree, tb1: Tree, ta2: Tree, tb2: Tree,
    p: NodeId, qs1: Seq<NodeId>, qs2: Seq<NodeId>,
)
    requires
        diff_ready(m0, ta, tb, p),
        base_post(m0, m1, ta, tb, ta1, tb1, p, qs1),
        base_post(m1, m2, ta1, tb1, ta2, tb2, p, qs2),
    ensures
        base_post(m0, m2, ta, tb, ta2, tb2, p, qs1 + qs2),
{
    lemma_ids_live(m0, ta);
    lemma_ids_live(m0, tb);
    let c0 = m0.children(p);
    let c1 = m1.children(p);
    crate::tree::lemma_chain_is(m0, m0.nodes[p].child, c0);
    let qs = qs1 + qs2;
    assert(m2.children(p) =~= c0 + qs);
    assert forall|x: NodeId| m0.live(x) && !tree_ids(ta).contains(x) && !tree_ids(tb).contains(x) && x != p
        && !c0.contains(x) implies #[trigger] m2.nodes[x] == m0.nodes[x] by {
        assert(!c1.contains(x)) by {
            if c1.contains(x) {
                let i = choose|i: int| 0 <= i < c1.len() && c1[i] == x;
                if i < c0.len() {
                    assert(c0[i] == x);
                } else {
                    assert(qs1[i - c0.len()] == x);
                }
            }
        }
    }
    assert forall|x: NodeId| #[trigger] c0.contains(x) implies same_but_sibs(m2.nodes[x], m0.nodes[x]) by {
        let i = choose|i: int| 0 <= i < c0.len() && c0[i] == x;
        assert(c1[i] == x);
        assert(c1.contains(x));
    }
    assert forall|k: int| 0 <= k < qs.len() implies !m0.live(#[trigger] qs[k]) by {
        if k < qs1.len() {
            assert(qs[k] == qs1[k]);
        } else {
            assert(qs[k] == qs2[k - qs1.len()]);
        }
    }
    assert forall|x: NodeId| (tree_ids(ta).contains(x) || tree_ids(tb).contains(x)) implies #[trigger] same_data(m2.nodes[x], m0.nodes[x]) by {
        assert(tree_ids(ta1).contains(x) || tree_ids(tb1).contains(x));
        assert(same_data(m2.nodes[x], m1.nodes[x]));
        assert(same_data(m1.nodes[x], m0.nodes[x]));
    }
}

/// Adding the node `n` to the object `p` under `key`: it becomes the last member, keyed
/// `key`; only the links of the list, and the key of `n`, changed.
#[verifier::spinoff_prover]
#[verifier::rlimit(60)]
pub proof fn lemma_member_added(md: StoreView, me: StoreView, p: NodeId, n: NodeId, key: Seq<u8>, sid: crate::store::StrId)
    requires
        listed(md, p),
        !md.children(p).contains(p),
        !md.children(p).contains(n),
        p != n,
        md.live(n),
        md.nodes[n].next is None,
        md.nodes[n].key matches Some(k) ==> md.strings.contains_key(k),
        !md.strings.contains_key(sid),
        me.str_slots >= md.str_slots,
        me == crate::dom::appended(StoreView { str_slots: me.str_slots, ..crate::dom::rekeyed(md, n, sid, key, false) }, p, n),
    ensures
        me.children(p) == md.children(p).push(n),
        listed(me, p),
        !me.children(p).contains(p),
        forall|x: NodeId| #[trigger] md.live(x) ==> me.live(x),
        forall|x: NodeId| md.live(x) && x != p && x != n && !md.children(p).contains(x) ==> #[trigger] me.nodes[x] == md.nodes[x],
        forall|x: NodeId| #[trigger] md.children(p).contains(x) ==> same_but_sibs(me.nodes[x], md.nodes[x]),
        same_data(me.nodes[p], md.nodes[p]),
        me.nodes[p].next == md.nodes[p].next,
        me.nodes[p].prev == md.nodes[p].prev,
        me.key_of(n) == Some(key),
        spec_type_kind(me.nodes[n].ty) == spec_type_kind(md.nodes[n].ty),
        me.nodes[n].valueint == md.nodes[n].valueint,
        me.nodes[n].valuedouble == md.nodes[n].valuedouble,
        me.nodes[n].valuestring == md.nodes[n].valuestring,
        me.nodes[n].child == md.nodes[n].child,
        me.nodes[n].next is None,
        forall|k: crate::store::StrId| md.strings.contains_key(k) && md.nodes[n].key != Some(k)
            ==> #[trigger] me.strings.contains_key(k) && me.strings[k] == md.strings[k],
        me.fail_allocs == md.fail_allocs,
        me.str_slots >= md.str_slots,
{
    let mr = StoreView { str_slots: me.str_slots, ..crate::dom::rekeyed(md, n, sid, key, false) };
    let c = md.children(p);
    assert forall|i: int| 0 <= i < c.len() implies #[trigger] mr.nodes[c[i]] == md.nodes[c[i]] && mr.live(c[i]) by {
        crate::tree::lemma_chain_is(md, md.nodes[p].child, c);
        assert(c[i] != n) by { assert(c.contains(c[i])); }
        assert(md.live(c[i]));
    }
    assert(mr.nodes[p] == md.nodes[p]);
    lemma_listed_same(md, mr, p);
    crate::laws::law_append_last(mr, p, n);
    crate::diff::lemma_appended_frame(mr, p, n);
    let ty = md.nodes[n].ty;
    assert((ty & !512i32) & 0xFF == ty & 0xFF) by (bit_vector);
    assert(!me.children(p).contains(p)) by {
        if me.children(p).contains(p) {
            let i = choose|i: int| 0 <= i < me.children(p).len() && me.children(p)[i] == p;
            if i < c.len() {
                assert(c[i] == p);
                assert(c.contains(p));
            }
        }
    }
}

/// The nodes that a plan holds, in order.
pub open spec fn somes(plan: Seq<Option<NodeId>>) -> Seq<NodeId>
    decreases plan.len(),
{
    if plan.len() == 0 {
        Seq::empty()
    } else {
        somes(plan.drop_last()) + match plan.last() {
            Some(n) => seq![n],
            None => Seq::empty(),
        }
    }
}

proof fn lemma_somes_push(plan: Seq<Option<NodeId>>, x: Option<NodeId>)
    ensures
        somes(plan.push(x)) == somes(plan) + match x { Some(n) => seq![n], None => Seq::<NodeId>::empty() },
{
    assert(plan.push(x).drop_last() =~= plan);
}

/// A node a plan holds is among its nodes.
proof fn lemma_somes_contains(plan: Seq<Option<NodeId>>, k: int)
    requires
        0 <= k < plan.len(),
        plan[k] is Some,
    ensures
        somes(plan).contains(plan[k].unwrap()),
    decreases plan.len(),
{
    if k == plan.len() - 1 {
        let s = somes(plan);
        assert(s[s.len() - 1] == plan[k].unwrap());
    } else {
        lemma_somes_contains(plan.drop_last(), k);
        let s0 = somes(plan.drop_last());
        let i = choose|i: int| 0 <= i < s0.len() && s0[i] == plan[k].unwrap();
        assert(somes(plan)[i] == plan[k].unwrap());
    }
}

/// What the member that a move of the walk added reads: a null keyed as the member of
/// `ta` that only the first object has; for a member only the second has, when it could
/// be copied, a copy of its fields keyed as it; for a pair, when one was added, a patch
/// keyed as the member of `tb`.
pub open spec fn move_member(m: StoreView, ta: Tree, tb: Tree, mv: Move, entry: Option<NodeId>) -> bool {
    &&& entry matches Some(n) ==> crate::dup::handles_live(m, n)
    &&& match mv {
        Move::Remove(i) => entry matches Some(n) && spec_type_kind(m.nodes[n].ty) == NULL
            && m.key_of(n) == Some(key_or_empty(m, ta.kids[i].id)),
        Move::Add(j) => entry matches Some(n) ==> {
            let o = tb.kids[j].id;
            &&& m.key_of(n) == Some(key_or_empty(m, o))
            &&& spec_type_kind(m.nodes[n].ty) == spec_type_kind(m.nodes[o].ty)
            &&& m.nodes[n].valueint == m.nodes[o].valueint
            &&& m.nodes[n].valuedouble == m.nodes[o].valuedouble
            &&& m.valuestring_of(n) == m.valuestring_of(o)
        },
        Move::Both(i, j) => entry matches Some(n) ==> m.key_of(n) == Some(key_or_empty(m, tb.kids[j].id)),
    }
}

/// The values of `x` and `y` already differ at their roots: different kinds, strings that
/// are not both present and equal, or numbers whose integer parts differ or that the
/// comparison `e` tells apart.
pub open spec fn roots_differ<E: Fn(u64, u64) -> bool>(m: StoreView, x: Tree, y: Tree, e: E) -> bool {
    let dx = m.nodes[x.id];
    let dy = m.nodes[y.id];
    let k = spec_type_kind(dx.ty);
    ||| k != spec_type_kind(dy.ty)
    ||| (k == crate::types::STRING && !(m.valuestring_of(x.id) is Some && m.valuestring_of(x.id) == m.valuestring_of(y.id)))
    ||| (k == crate::types::NUMBER && !(dx.valueint == dy.valueint && crate::compare::eq_of(e, dx.valuedouble, dy.valuedouble)))
}

/// Every move of the walk that adds a member, or that pairs two members whose values differ
/// at their roots, has an entry in the plan, when the target value is shallow enough to copy.
pub open spec fn pairs_entered<E: Fn(u64, u64) -> bool>(m: StoreView, ta: Tree, tb: Tree, w: Seq<Move>, plan: Seq<Option<NodeId>>, e: E) -> bool {
    forall|k: int| #![trigger plan[k]] 0 <= k < plan.len() && k < w.len() && entry_owed(m, ta, tb, w[k], e)
        ==> plan[k] is Some
}

/// A move that must leave a member in the plan (when the target value can be copied).
pub open spec fn entry_owed<E: Fn(u64, u64) -> bool>(m: StoreView, ta: Tree, tb: Tree, mv: Move, e: E) -> bool {
    match mv {
        Move::Both(i, j) => roots_differ(m, ta.kids[i], tb.kids[j], e) && crate::dup::depth_ok(tb.kids[j], 0),
        Move::Add(j) => crate::dup::depth_ok(tb.kids[j], 0),
        Move::Remove(_) => false,
    }
}

/// Whether the values differ at their roots reads only the roots' fields and strings.
proof fn lemma_roots_same<E: Fn(u64, u64) -> bool>(ma: StoreView, mb: StoreView, x: Tree, y: Tree, x2: Tree, y2: Tree, e: E)
    requires
        x2.id == x.id,
        y2.id == y.id,
        same_data(ma.nodes[x.id], mb.nodes[x.id]),
        same_data(ma.nodes[y.id], mb.nodes[y.id]),
        ma.valuestring_of(x.id) == mb.valuestring_of(x.id),
        ma.valuestring_of(y.id) == mb.valuestring_of(y.id),
    ensures
        roots_differ(ma, x, y, e) == roots_differ(mb, x2, y2, e),
{
}

/// Values that compare equal do not differ at their roots.
proof fn lemma_jeq_roots<E: Fn(u64, u64) -> bool>(m: StoreView, x: Tree, y: Tree, cs: bool, e: E)
    requires
        crate::equal::jeq(m, x, y, cs, e),
    ensures
        !roots_differ(m, x, y, e),
{
}

/// The plan `plan` follows the walk `w`: one entry per move, as `move_member` says.
pub open spec fn plan_ok(m: StoreView, ta: Tree, tb: Tree, w: Seq<Move>, plan: Seq<Option<NodeId>>) -> bool {
    &&& plan.len() == w.len()
    &&& forall|k: int| 0 <= k < w.len() ==> #[trigger] move_member(m, ta, tb, w[k], plan[k])
}

/// The members added so far read the same after a step that kept the list of `p`.
proof fn lemma_plan_kept(
    m0: StoreView, m1: StoreView, m2: StoreView, ta: Tree, tb: Tree, ta1: Tree, tb1: Tree, ta2: Tree, tb2: Tree,
    p: NodeId, qs: Seq<NodeId>, w: Seq<Move>, plan: Seq<Option<NodeId>>,
)
    requires
        m0.children(p) == Seq::<NodeId>::empty(),
        base_post(m0, m1, ta, tb, ta1, tb1, p, somes(plan)),
        base_post(m1, m2, ta1, tb1, ta2, tb2, p, qs),
        plan_ok(m1, ta1, tb1, w.take(plan.len() as int), plan),
        plan.len() <= w.len(),
        ta1.kids.len() == ta.kids.len(),
        tb1.kids.len() == tb.kids.len(),
        ta2.kids.len() == ta.kids.len(),
        tb2.kids.len() == tb.kids.len(),
        forall|k: int| 0 <= k < ta.kids.len() ==> #[trigger] ta2.kids[k].id == ta1.kids[k].id,
        forall|k: int| 0 <= k < tb.kids.len() ==> #[trigger] tb2.kids[k].id == tb1.kids[k].id,
        forall|k: int| 0 <= k < plan.len() ==> move_below(#[trigger] w[k], ta.kids.len() as int, tb.kids.len() as int, true),
    ensures
        plan_ok(m2, ta2, tb2, w.take(plan.len() as int), plan),
{
    assert forall|k: int| 0 <= k < plan.len() implies #[trigger] move_member(m2, ta2, tb2, w.take(plan.len() as int)[k], plan[k]) by {
        lemma_member_kept(m0, m1, m2, ta, tb, ta1, tb1, ta2, tb2, p, qs, w, plan, k);
    }
}

#[verifier::spinoff_prover]
#[verifier::rlimit(60)]
proof fn lemma_member_kept(
    m0: StoreView, m1: StoreView, m2: StoreView, ta: Tree, tb: Tree, ta1: Tree, tb1: Tree, ta2: Tree, tb2: Tree,
    p: NodeId, qs: Seq<NodeId>, w: Seq<Move>, plan: Seq<Option<NodeId>>, k: int,
)
    requires
        m0.children(p) == Seq::<NodeId>::empty(),
        base_post(m0, m1, ta, tb, ta1, tb1, p, somes(plan)),
        base_post(m1, m2, ta1, tb1, ta2, tb2, p, qs),
        plan_ok(m1, ta1, tb1, w.take(plan.len() as int), plan),
        plan.len() <= w.len(),
        0 <= k < plan.len(),
        ta1.kids.len() == ta.kids.len(),
        tb1.kids.len() == tb.kids.len(),
        ta2.kids.len() == ta.kids.len(),
        tb2.kids.len() == tb.kids.len(),
        forall|k: int| 0 <= k < ta.kids.len() ==> #[trigger] ta2.kids[k].id == ta1.kids[k].id,
        forall|k: int| 0 <= k < tb.kids.len() ==> #[trigger] tb2.kids[k].id == tb1.kids[k].id,
        move_below(w[k], ta.kids.len() as int, tb.kids.len() as int, true),
    ensures
        move_member(m2, ta2, tb2, w.take(plan.len() as int)[k], plan[k]),
{
    let mv = w[k];
    assert(w.take(plan.len() as int)[k] == mv);
    assert(move_member(m1, ta1, tb1, mv, plan[k]));
    if plan[k] is Some {
        let n = plan[k].unwrap();
        lemma_somes_contains(plan, k);
        assert(m1.children(p) =~= somes(plan));
        assert(m1.children(p).contains(n));
        assert(same_but_sibs(m2.nodes[n], m1.nodes[n]));
        assert(crate::dup::handles_live(m1, n));
        if let Some(s) = m1.nodes[n].key {
            assert(m1.strings.contains_key(s));
        }
        if let Some(s) = m1.nodes[n].valuestring {
            assert(m1.strings.contains_key(s));
        }
    }
    match mv {
        Move::Remove(ii) => {
            lemma_kid_in(ta1, ii);
            lemma_node_data(m1, m2, ta1, tb1, ta2, tb2, p, qs, ta1.kids[ii].id);
        },
        Move::Add(jj) => {
            lemma_kid_in(tb1, jj);
            lemma_node_data(m1, m2, ta1, tb1, ta2, tb2, p, qs, tb1.kids[jj].id);
        },
        Move::Both(ii, jj) => {
            lemma_kid_in(tb1, jj);
            lemma_node_data(m1, m2, ta1, tb1, ta2, tb2, p, qs, tb1.kids[jj].id);
        },
    }
}

/// A node of the trees keeps its fields and strings across a step.
proof fn lemma_node_data(m1: StoreView, m2: StoreView, ta1: Tree, tb1: Tree, ta2: Tree, tb2: Tree, p: NodeId, qs: Seq<NodeId>, o: NodeId)
    requires
        diff_ready(m1, ta1, tb1, p),
        base_post(m1, m2, ta1, tb1, ta2, tb2, p, qs),
        tree_ids(ta1).contains(o) || tree_ids(tb1).contains(o),
    ensures
        same_data(m2.nodes[o], m1.nodes[o]),
        m2.key_of(o) == m1.key_of(o),
        m2.valuestring_of(o) == m1.valuestring_of(o),
        key_or_empty(m2, o) == key_or_empty(m1, o),
{
    assert(crate::dup::handles_live(m1, o));
    assert(same_data(m2.nodes[o], m1.nodes[o]));
    if let Some(k) = m1.nodes[o].key {
        assert(m1.strings.contains_key(k));
    }
    if let Some(k) = m1.nodes[o].valuestring {
        assert(m1.strings.contains_key(k));
    }
}

/// The roots of the children of a tree are among its nodes.
proof fn lemma_kid_in(t: Tree, k: int)
    requires
        0 <= k < t.kids.len(),
    ensures
        tree_ids(t).contains(t.kids[k].id),
{
    crate::tree::lemma_kids_in_ids(t.kids, k);
    assert(tree_ids(t.kids[k])[0] == t.kids[k].id);
    assert(tree_ids(t.kids[k]).contains(t.kids[k].id));
    lemma_tree_contains(t, t.kids[k].id);
}

/// A patch just made: a fresh node, last in no list, whose strings are live (a key it has
/// is fresh too).
pub open spec fn fresh_root(before: StoreView, after: StoreView, p: NodeId) -> bool {
    &&& !before.live(p)
    &&& after.live(p)
    &&& after.nodes[p].next is None
    &&& after.nodes[p].prev is None
    &&& crate::dup::handles_live(after, p)
    &&& after.nodes[p].key matches Some(k) ==> !before.strings.contains_key(k) && after.nodes[p].valuestring != Some(k)
}

/// A step that only added fresh nodes and strings is one on the trees that adds no
/// member.
pub proof fn lemma_grow_base(m1: StoreView, md: StoreView, ta: Tree, tb: Tree, p: NodeId)
    requires
        diff_ready(m1, ta, tb, p),
        forall|x: NodeId| #[trigger] m1.live(x) ==> md.live(x) && md.nodes[x] == m1.nodes[x],
        strs_grow(m1, md),
        md.str_slots >= m1.str_slots,
        md.fail_allocs == m1.fail_allocs,
        md.slots_ok(),
    ensures
        base_post(m1, md, ta, tb, ta, tb, p, Seq::empty()),
        crate::diff::reads_same(m1, md, ta),
        crate::diff::reads_same(m1, md, tb),
{
    lemma_ids_live(m1, ta);
    lemma_ids_live(m1, tb);
    assert forall|x: NodeId| #[trigger] tree_ids(ta).contains(x) implies md.nodes[x] == m1.nodes[x] && md.live(x) by {}
    assert forall|x: NodeId| #[trigger] tree_ids(tb).contains(x) implies md.nodes[x] == m1.nodes[x] && md.live(x) by {}
    crate::diff::lemma_ready_kept(m1, md, ta);
    crate::diff::lemma_ready_kept(m1, md, tb);
    let c = m1.children(p);
    crate::tree::lemma_chain_is(m1, m1.nodes[p].child, c);
    assert forall|i: int| 0 <= i < c.len() implies #[trigger] md.nodes[c[i]] == m1.nodes[c[i]] && md.live(c[i]) by {
        assert(c.contains(c[i]));
    }
    lemma_listed_same(m1, md, p);
    assert(md.children(p) + Seq::<NodeId>::empty() =~= m1.children(p));
    lemma_tree_contains(ta, ta.id);
    lemma_tree_contains(tb, tb.id);
}

/// Adding the fresh patch `n` to `p` after a step that added no member: a step that added
/// `n`, keyed `key`, its other fields as they were.
#[verifier::spinoff_prover]
#[verifier::rlimit(100)]
pub proof fn lemma_add_after(
    m1: StoreView, md: StoreView, me: StoreView, ta: Tree, tb: Tree, ta2: Tree, tb2: Tree,
    p: NodeId, n: NodeId, key: Seq<u8>,
)
    requires
        diff_ready(m1, ta, tb, p),
        base_post(m1, md, ta, tb, ta2, tb2, p, Seq::empty()),
        fresh_root(m1, md, n),
        me.slots_ok(),
        me.children(p) == md.children(p).push(n),
        listed(me, p),
        !me.children(p).contains(p),
        forall|x: NodeId| #[trigger] md.live(x) ==> me.live(x),
        forall|x: NodeId| md.live(x) && x != p && x != n && !md.children(p).contains(x) ==> #[trigger] me.nodes[x] == md.nodes[x],
        forall|x: NodeId| #[trigger] md.children(p).contains(x) ==> same_but_sibs(me.nodes[x], md.nodes[x]),
        same_data(me.nodes[p], md.nodes[p]),
        me.nodes[p].next == md.nodes[p].next,
        me.nodes[p].prev == md.nodes[p].prev,
        me.key_of(n) == Some(key),
        spec_type_kind(me.nodes[n].ty) == spec_type_kind(md.nodes[n].ty),
        me.nodes[n].valueint == md.nodes[n].valueint,
        me.nodes[n].valuedouble == md.nodes[n].valuedouble,
        me.nodes[n].valuestring == md.nodes[n].valuestring,
        me.nodes[n].child == md.nodes[n].child,
        me.nodes[n].next is None,
        forall|k: crate::store::StrId| md.strings.contains_key(k) && md.nodes[n].key != Some(k)
            ==> #[trigger] me.strings.contains_key(k) && me.strings[k] == md.strings[k],
        me.fail_allocs == md.fail_allocs,
        me.str_slots >= md.str_slots,
    ensures
        base_post(m1, me, ta, tb, ta2, tb2, p, seq![n]),
        me.key_of(n) == Some(key),
        crate::dup::handles_live(me, n),
        spec_type_kind(me.nodes[n].ty) == spec_type_kind(md.nodes[n].ty),
        me.nodes[n].valueint == md.nodes[n].valueint,
        me.nodes[n].valuedouble == md.nodes[n].valuedouble,
        me.valuestring_of(n) == md.valuestring_of(n),
        forall|x: NodeId| (tree_ids(ta2).contains(x) || tree_ids(tb2).contains(x)) ==> #[trigger] me.nodes[x] == md.nodes[x],
        strs_grow(md, me) || md.nodes[n].key is Some,
{
    lemma_ids_live(m1, ta);
    lemma_ids_live(m1, tb);
    let c1 = m1.children(p);
    let cd = md.children(p);
    assert(cd =~= c1);
    crate::tree::lemma_chain_is(m1, m1.nodes[p].child, c1);
    assert(!cd.contains(n)) by {
        if cd.contains(n) {
            let i = choose|i: int| 0 <= i < cd.len() && cd[i] == n;
            assert(c1.contains(n));
        }
    }
    assert(p != n) by { assert(m1.live(p)); }
    // the trees' nodes are none of the list, nor `p`, nor `n`
    assert forall|x: NodeId| (tree_ids(ta2).contains(x) || tree_ids(tb2).contains(x)) implies #[trigger] me.nodes[x] == md.nodes[x] by {
        assert(tree_ids(ta).contains(x) || tree_ids(tb).contains(x));
        assert(m1.live(x));
        assert(!c1.contains(x));
        assert(x != p);
    }
    assert(strs_grow(m1, me)) by {
        assert forall|k: crate::store::StrId| #[trigger] m1.strings.contains_key(k) implies me.strings.contains_key(k)
            && me.strings[k] == m1.strings[k] by {
            assert(md.strings.contains_key(k));
            assert(md.nodes[n].key != Some(k));
        }
    }
    assert(me.children(p) =~= c1 + seq![n]);
    assert forall|x: NodeId| m1.live(x) && !tree_ids(ta).contains(x) && !tree_ids(tb).contains(x) && x != p
        && !c1.contains(x) implies #[trigger] me.nodes[x] == m1.nodes[x] by {
        assert(md.nodes[x] == m1.nodes[x]);
    }
    assert forall|x: NodeId| #[trigger] c1.contains(x) implies same_but_sibs(me.nodes[x], m1.nodes[x]) by {
        assert(cd.contains(x));
    }
    assert forall|x: NodeId| (tree_ids(ta).contains(x) || tree_ids(tb).contains(x)) implies #[trigger] same_data(me.nodes[x], m1.nodes[x]) by {
        assert(tree_ids(ta2).contains(x) || tree_ids(tb2).contains(x));
        assert(me.nodes[x] == md.nodes[x]);
        assert(same_data(md.nodes[x], m1.nodes[x]));
    }
    // the trees stay ready, their strings live
    assert forall|x: NodeId| #[trigger] tree_ids(ta2).contains(x) implies crate::dup::handles_live(me, x) by {
        assert(crate::dup::handles_live(md, x));
        assert(tree_ids(ta).contains(x));
        assert(crate::dup::handles_live(m1, x));
        assert(same_data(md.nodes[x], m1.nodes[x]));
        if let Some(k) = md.nodes[x].key { assert(m1.strings.contains_key(k)); assert(md.nodes[n].key != Some(k)); }
        if let Some(k) = md.nodes[x].valuestring { assert(m1.strings.contains_key(k)); assert(md.nodes[n].key != Some(k)); }
    }
    assert forall|x: NodeId| #[trigger] tree_ids(tb2).contains(x) implies crate::dup::handles_live(me, x) by {
        assert(crate::dup::handles_live(md, x));
        assert(tree_ids(tb).contains(x));
        assert(crate::dup::handles_live(m1, x));
        assert(same_data(md.nodes[x], m1.nodes[x]));
        if let Some(k) = md.nodes[x].key { assert(m1.strings.contains_key(k)); assert(md.nodes[n].key != Some(k)); }
        if let Some(k) = md.nodes[x].valuestring { assert(m1.strings.contains_key(k)); assert(md.nodes[n].key != Some(k)); }
    }
    assert forall|x: NodeId| #[trigger] tree_ids(ta2).contains(x) implies me.nodes[x] == md.nodes[x] && me.live(x) by {}
    assert forall|x: NodeId| #[trigger] tree_ids(tb2).contains(x) implies me.nodes[x] == md.nodes[x] && me.live(x) by {}
    lemma_ready_frame(md, me, ta2);
    lemma_ready_frame(md, me, tb2);
    if let Some(k) = md.nodes[n].valuestring {
        assert(md.strings.contains_key(k));
    }
    assert forall|x: NodeId| #[trigger] me.children(p).contains(x) implies !tree_ids(ta2).contains(x) && !tree_ids(tb2).contains(x) by {
        let ce = me.children(p);
        let i = choose|i: int| 0 <= i < ce.len() && ce[i] == x;
        if i < c1.len() {
            assert(c1[i] == x);
            assert(c1.contains(x));
            assert(cd.contains(x));
        } else {
            assert(x == n);
        }
    }
    lemma_tree_contains(ta, ta.id);
    lemma_tree_contains(tb, tb.id);
}

/// A ready tree whose nodes are kept is as ready, where the string slots did not shrink.
proof fn lemma_ready_frame(m1: StoreView, m2: StoreView, t: Tree)
    requires
        cj_ready(m1, t),
        forall|x: NodeId| #[trigger] tree_ids(t).contains(x) ==> m2.nodes[x] == m1.nodes[x] && m2.live(x),
        m2.str_slots >= m1.str_slots,
    ensures
        cj_ready(m2, t),
{
    lemma_ids_live(m1, t);
    assert(m1.agrees_on(m2, tree_ids(t).to_set())) by {
        assert forall|x: NodeId| tree_ids(t).to_set().contains(x) implies (m1.live(x) == m2.live(x)
            && (m1.live(x) ==> m1.nodes[x] == m2.nodes[x])) by {
            assert(tree_ids(t).contains(x));
        }
    }
    crate::tree::lemma_tree_frame(m1, m2, t, false);
}

/// Every move of the walk stays within the children.
pub proof fn lemma_mp_walk_below(m: StoreView, ta: Tree, tb: Tree, i: int, j: int)
    ensures
        forall|n: int| 0 <= n < mp_walk(m, ta, tb, i, j).len()
            ==> move_below(#[trigger] mp_walk(m, ta, tb, i, j)[n], ta.kids.len() as int, tb.kids.len() as int, true),
    decreases (ta.kids.len() - i) + (tb.kids.len() - j),
{
    if i < 0 || j < 0 || i > ta.kids.len() || j > tb.kids.len() || (i == ta.kids.len() && j == tb.kids.len()) {
    } else {
        if i < ta.kids.len() && j < tb.kids.len() {
            lemma_mp_walk_below(m, ta, tb, i + 1, j + 1);
        }
        if i < ta.kids.len() {
            lemma_mp_walk_below(m, ta, tb, i + 1, j);
        }
        if j < tb.kids.len() {
            lemma_mp_walk_below(m, ta, tb, i, j + 1);
        }
        let w = mp_walk(m, ta, tb, i, j);
        assert forall|n: int| 0 <= n < w.len() implies move_below(#[trigger] w[n], ta.kids.len() as int, tb.kids.len() as int, true) by {
            if n > 0 {
                if i == ta.kids.len() {
                    assert(w[n] == mp_walk(m, ta, tb, i, j + 1)[n - 1]);
                } else if j == tb.kids.len() {
                    assert(w[n] == mp_walk(m, ta, tb, i + 1, j)[n - 1]);
                } else {
                    let d = lex(key_or_empty(m, ta.kids[i].id), key_or_empty(m, tb.kids[j].id));
                    if d == 0 {
                        assert(w[n] == mp_walk(m, ta, tb, i + 1, j + 1)[n - 1]);
                    } else if d < 0 {
                        assert(w[n] == mp_walk(m, ta, tb, i + 1, j)[n - 1]);
                    } else {
                        assert(w[n] == mp_walk(m, ta, tb, i, j + 1)[n - 1]);
                    }
                }
            }
        }
    }
}

/// One more entry of the plan.
proof fn lemma_plan_extend(m: StoreView, ta: Tree, tb: Tree, w: Seq<Move>, plan: Seq<Option<NodeId>>, entry: Option<NodeId>)
    requires
        plan.len() < w.len(),
        plan_ok(m, ta, tb, w.take(plan.len() as int), plan),
        move_member(m, ta, tb, w[plan.len() as int], entry),
    ensures
        plan_ok(m, ta, tb, w.take(plan.len() as int + 1), plan.push(entry)),
{
    let n = plan.len() as int;
    let p2 = plan.push(entry);
    assert forall|k: int| 0 <= k < n + 1 implies #[trigger] move_member(m, ta, tb, w.take(n + 1)[k], p2[k]) by {
        if k < n {
            assert(w.take(n + 1)[k] == w.take(n)[k]);
            assert(p2[k] == plan[k]);
            assert(move_member(m, ta, tb, w.take(n)[k], plan[k]));
        } else {
            assert(w.take(n + 1)[k] == w[n]);
        }
    }
}

/// A step that only added fresh nodes and strings changed neither tree.
pub proof fn lemma_grow_tree(m1: StoreView, md: StoreView, ta: Tree, tb: Tree)
    requires
        mp_ready(m1, ta, tb),
        forall|x: NodeId| #[trigger] m1.live(x) ==> md.live(x) && md.nodes[x] == m1.nodes[x],
        strs_grow(m1, md),
        md.str_slots >= m1.str_slots,
        md.fail_allocs == m1.fail_allocs,
        md.slots_ok(),
    ensures
        tree_post(m1, md, ta, tb, ta, tb),
{
    lemma_ids_live(m1, ta);
    lemma_ids_live(m1, tb);
    assert forall|x: NodeId| #[trigger] tree_ids(ta).contains(x) implies md.nodes[x] == m1.nodes[x] && md.live(x) by {}
    assert forall|x: NodeId| #[trigger] tree_ids(tb).contains(x) implies md.nodes[x] == m1.nodes[x] && md.live(x) by {}
    crate::diff::lemma_ready_kept(m1, md, ta);
    crate::diff::lemma_ready_kept(m1, md, tb);
    lemma_tree_contains(ta, ta.id);
    lemma_tree_contains(tb, tb.id);
}

/// After the fresh object `p` was made, the two trees are ready for members to be added
/// to it.
proof fn lemma_obj_start(m1: StoreView, m2: StoreView, ta: Tree, tb: Tree, p: NodeId)
    requires
        mp_ready(m1, ta, tb),
        crate::dom::created(m1, m2, Some(p), crate::dom::typed(OBJECT)),
        m2.slots_ok(),
    ensures
        diff_ready(m2, ta, tb, p),
        m2.children(p) == Seq::<NodeId>::empty(),
        tree_post(m1, m2, ta, tb, ta, tb),
        spec_type_kind(m2.nodes[p].ty) == OBJECT,
        m2.nodes[p].next is None,
        m2.nodes[p].prev is None,
        m2.nodes[p].key is None,
        m2.nodes[p].valuestring is None,
        !m1.live(p),
{
    lemma_grow_tree(m1, m2, ta, tb);
    lemma_ids_live(m1, ta);
    lemma_ids_live(m1, tb);
    assert(m2.is_chain(None, Seq::<NodeId>::empty()));
    crate::tree::lemma_chain_is(m2, None, Seq::<NodeId>::empty());
    assert((64i32 & 0xFF) == 64i32) by (bit_vector);
}

/// Deleting a lone node without strings removes it alone.
proof fn lemma_delete_lone(m: StoreView, p: NodeId)
    requires
        m.live(p),
        m.nodes[p].child is None,
        m.nodes[p].next is None,
        m.nodes[p].key is None,
        m.nodes[p].valuestring is None,
    ensures
        m.has_forest(Some(p), true),
        m.after_delete(m.forest(Some(p), true)) == (StoreView { nodes: m.nodes.remove(p), ..m }),
{
    let t = Tree { id: p, kids: Seq::empty() };
    let ts = seq![t];
    assert(crate::tree::tops(ts) =~= seq![p]);
    assert(crate::tree::tops(t.kids) =~= Seq::<NodeId>::empty());
    assert(m.is_chain(None, Seq::<NodeId>::empty()));
    assert(m.forest_valid(None, t.kids, true));
    assert(m.tree_valid(t, true));
    assert(m.is_chain(Some(p), seq![p]));
    assert(m.forest_valid(Some(p), ts, true));
    assert(crate::tree::forest_ids(ts) =~= seq![p]) by {
        assert(crate::tree::forest_ids(ts.drop_first()) =~= Seq::<NodeId>::empty());
        assert(tree_ids(t) =~= seq![p] + crate::tree::forest_ids(t.kids));
        assert(crate::tree::forest_ids(t.kids) =~= Seq::<NodeId>::empty());
    }
    crate::tree::lemma_forest_is(m, Some(p), ts, true);
    assert(m.forest_strs(ts) =~= Set::<crate::store::StrId>::empty()) by {
        assert(ts.drop_first() =~= Seq::<Tree>::empty());
        assert(m.node_strs(p) =~= Set::<crate::store::StrId>::empty());
        assert(m.forest_strs(Seq::<Tree>::empty()) =~= Set::<crate::store::StrId>::empty());
        assert(m.forest_strs(t.kids) =~= Set::<crate::store::StrId>::empty());
        assert(m.tree_strs(t) =~= Set::<crate::store::StrId>::empty());
        assert(ts[0] == t);
    }
    assert(seq![p].to_set() =~= set![p]);
    assert(m.nodes.remove_keys(set![p]) =~= m.nodes.remove(p));
    assert(m.strings.remove_keys(Set::<crate::store::StrId>::empty()) =~= m.strings);
}

/// What a step on the trees alone keeps, seen from before the object `p` was made.
#[verifier::spinoff_prover]
#[verifier::rlimit(60)]
proof fn lemma_tree_from_base(m1: StoreView, m2: StoreView, m3: StoreView, ta: Tree, tb: Tree, ta1: Tree, tb1: Tree, p: NodeId, qs: Seq<NodeId>)
    requires
        tree_post(m1, m2, ta, tb, ta, tb),
        !m1.live(p),
        m2.children(p) == Seq::<NodeId>::empty(),
        diff_ready(m2, ta, tb, p),
        base_post(m2, m3, ta, tb, ta1, tb1, p, qs),
    ensures
        tree_post(m1, m3, ta, tb, ta1, tb1),
{
    assert forall|x: NodeId| m1.live(x) && !tree_ids(ta).contains(x) && !tree_ids(tb).contains(x)
        implies #[trigger] m3.nodes[x] == m1.nodes[x] by {
        assert(m2.live(x));
        assert(!m2.children(p).contains(x));
    }
    assert forall|x: NodeId| (tree_ids(ta).contains(x) || tree_ids(tb).contains(x)) implies #[trigger] same_data(m3.nodes[x], m1.nodes[x]) by {
        assert(same_data(m3.nodes[x], m2.nodes[x]));
        assert(same_data(m2.nodes[x], m1.nodes[x]));
    }
    assert forall|x: NodeId| #[trigger] m1.live(x) implies m3.live(x) by {
        assert(m2.live(x));
    }
    assert(strs_grow(m1, m3)) by {
        assert forall|k: crate::store::StrId| #[trigger] m1.strings.contains_key(k) implies m3.strings.contains_key(k)
            && m3.strings[k] == m1.strings[k] by {
            assert(m2.strings.contains_key(k));
        }
    }
}

/// Two steps on the trees alone make one.
pub proof fn lemma_tree_trans(m0: StoreView, m1: StoreView, m2: StoreView, ta: Tree, tb: Tree, ta1: Tree, tb1: Tree, ta2: Tree, tb2: Tree)
    requires
        tree_post(m0, m1, ta, tb, ta1, tb1),
        tree_post(m1, m2, ta1, tb1, ta2, tb2),
    ensures
        tree_post(m0, m2, ta, tb, ta2, tb2),
{
    assert forall|x: NodeId| m0.live(x) && !tree_ids(ta).contains(x) && !tree_ids(tb).contains(x)
        implies #[trigger] m2.nodes[x] == m0.nodes[x] by {
        assert(m1.live(x));
        assert(!tree_ids(ta1).contains(x));
        assert(!tree_ids(tb1).contains(x));
    }
    assert forall|x: NodeId| (tree_ids(ta).contains(x) || tree_ids(tb).contains(x)) implies #[trigger] same_data(m2.nodes[x], m0.nodes[x]) by {
        assert(tree_ids(ta1).contains(x) || tree_ids(tb1).contains(x));
        assert(same_data(m2.nodes[x], m1.nodes[x]));
        assert(same_data(m1.nodes[x], m0.nodes[x]));
    }
    assert forall|x: NodeId| #[trigger] m0.live(x) implies m2.live(x) by {
        assert(m1.live(x));
    }
    assert(strs_grow(m0, m2)) by {
        assert forall|k: crate::store::StrId| #[trigger] m0.strings.contains_key(k) implies m2.strings.contains_key(k)
            && m2.strings[k] == m0.strings[k] by {
            assert(m1.strings.contains_key(k));
        }
    }
}

/// One move of the walk done: the trees are `ta2`, `tb2`, and the plan has one more entry.
#[verifier::spinoff_prover]
#[verifier::rlimit(60)]
proof fn lemma_step_done(
    m0: StoreView, m1: StoreView, m2: StoreView, ta: Tree, tb: Tree, ta1: Tree, tb1: Tree, ta2: Tree, tb2: Tree,
    p: NodeId, plan: Seq<Option<NodeId>>, entry: Option<NodeId>, w: Seq<Move>,
)
    requires
        diff_ready(m0, ta, tb, p),
        m0.children(p) == Seq::<NodeId>::empty(),
        base_post(m0, m1, ta, tb, ta1, tb1, p, somes(plan)),
        plan_ok(m1, ta1, tb1, w.take(plan.len() as int), plan),
        base_post(m1, m2, ta1, tb1, ta2, tb2, p, match entry { Some(x) => seq![x], None => Seq::<NodeId>::empty() }),
        plan.len() < w.len(),
        move_member(m2, ta2, tb2, w[plan.len() as int], entry),
        ta1.kids.len() == ta.kids.len(),
        tb1.kids.len() == tb.kids.len(),
        ta2.kids.len() == ta.kids.len(),
        tb2.kids.len() == tb.kids.len(),
        forall|k: int| 0 <= k < ta.kids.len() ==> #[trigger] ta2.kids[k].id == ta1.kids[k].id,
        forall|k: int| 0 <= k < tb.kids.len() ==> #[trigger] tb2.kids[k].id == tb1.kids[k].id,
        forall|k: int| 0 <= k < plan.len() ==> move_below(#[trigger] w[k], ta.kids.len() as int, tb.kids.len() as int, true),
    ensures
        base_post(m0, m2, ta, tb, ta2, tb2, p, somes(plan.push(entry))),
        plan_ok(m2, ta2, tb2, w.take(plan.len() as int + 1), plan.push(entry)),
{
    let qs = match entry { Some(x) => seq![x], None => Seq::<NodeId>::empty() };
    lemma_bpost_trans(m0, m1, m2, ta, tb, ta1, tb1, ta2, tb2, p, somes(plan), qs);
    lemma_somes_push(plan, entry);
    lemma_plan_kept(m0, m1, m2, ta, tb, ta1, tb1, ta2, tb2, p, qs, w, plan);
    lemma_plan_extend(m2, ta2, tb2, w, plan, entry);
}

/// What holds after the walk over the members of the objects `ta`, `tb` has made the moves
/// of `plan`: the first `i` members of `ta` and `j` of `tb` are handled (now `ka`, `kb`).
spec fn gm_inv<E: Fn(u64, u64) -> bool>(m0: StoreView, m: StoreView, p: NodeId, ta: Tree, tb: Tree,
    ka: Seq<Tree>, kb: Seq<Tree>, plan: Seq<Option<NodeId>>, i: int, j: int, e: E) -> bool {
    let w = mp_walk(m0, ta, tb, 0, 0);
    &&& diff_ready(m0, ta, tb, p)
    &&& m0.children(p) == Seq::<NodeId>::empty()
    &&& eq_ok(e)
    &&& forall|k: int| 0 <= k < w.len() ==> move_below(#[trigger] w[k], ta.kids.len() as int, tb.kids.len() as int, true)
    &&& ka.len() == ta.kids.len()
    &&& kb.len() == tb.kids.len()
    &&& forall|k: int| 0 <= k < ka.len() ==> #[trigger] ka[k].id == ta.kids[k].id
    &&& forall|k: int| 0 <= k < kb.len() ==> #[trigger] kb[k].id == tb.kids[k].id
    &&& forall|k: int| i <= k < ka.len() ==> #[trigger] ka[k] == ta.kids[k]
    &&& forall|k: int| j <= k < kb.len() ==> #[trigger] kb[k] == tb.kids[k]
    &&& base_post(m0, m, ta, tb, Tree { id: ta.id, kids: ka }, Tree { id: tb.id, kids: kb }, p, somes(plan))
    &&& 0 <= i <= ka.len()
    &&& 0 <= j <= kb.len()
    &&& plan.len() <= w.len()
    &&& w.skip(plan.len() as int) == mp_walk(m0, ta, tb, i, j)
    &&& forall|k: int| 0 <= k < plan.len() ==> move_below(#[trigger] w[k], i, j, true)
    &&& plan_ok(m, Tree { id: ta.id, kids: ka }, Tree { id: tb.id, kids: kb }, w.take(plan.len() as int), plan)
    &&& pairs_entered(m, Tree { id: ta.id, kids: ka }, Tree { id: tb.id, kids: kb }, w, plan, e)
}

/// One move of the member walk that removes the member `f` of `ta`: a null member under
/// its key.
#[verifier::spinoff_prover]
#[verifier::rlimit(100)]
fn gm_remove_step<E: Fn(u64, u64) -> bool>(store: &mut SafeStore, p: NodeId, f: NodeId, cs: bool, e: &E,
    Ghost(m0): Ghost<StoreView>, Ghost(ta): Ghost<Tree>, Ghost(tb): Ghost<Tree>, Ghost(ka0): Ghost<Seq<Tree>>,
    Ghost(kb0): Ghost<Seq<Tree>>, Ghost(plan0): Ghost<Seq<Option<NodeId>>>, Ghost(i): Ghost<int>, Ghost(j): Ghost<int>,
) -> (r: Ghost<Seq<Option<NodeId>>>)
    requires
        gm_inv(m0, old(store)@, p, ta, tb, ka0, kb0, plan0, i, j, *e),
        i < ka0.len(),
        f == ka0[i].id,
        mp_walk(m0, ta, tb, 0, 0).skip(plan0.len() as int) == seq![Move::Remove(i)] + mp_walk(m0, ta, tb, i + 1, j),
    ensures
        gm_inv(m0, final(store)@, p, ta, tb, ka0, kb0, r@, i + 1, j, *e),
        final(store)@.live(f),
        final(store)@.nodes[f].next == (if i + 1 < ka0.len() { Some(ka0[i + 1].id) } else { None::<NodeId> }),
{
    let ghost w = mp_walk(m0, ta, tb, 0, 0);
    let ghost mut ka = ka0;
    let ghost mut kb = kb0;
    let ghost mut plan = plan0;
    let ghost m1 = store@;
    let ghost a = ta.id;
    let ghost b = tb.id;
    let ghost ta1 = Tree { id: a, kids: ka };
    let ghost tb1 = Tree { id: b, kids: kb };
    let ghost n = plan.len() as int;
    proof {
        if i < ka.len() {
            crate::equal::lemma_kid_ready(m1, ta1, i);
        }
        if j < kb.len() {
            crate::equal::lemma_kid_ready(m1, tb1, j);
        }
    }
    let key: Vec<u8> = match crate::store::key_owned(store, f) {
        Some(k) => k,
        None => Vec::new(),
    };
    proof {
        crate::diff::lemma_skip_step(w, n, Move::Remove(i), mp_walk(m0, ta, tb, i + 1, j));
    }
    let nn = match crate::dom::create_null(store) {
        Some(x) => x,
        None => {
            proof { assert(false); }
            return Ghost(plan);
        },
    };
    let ghost md = store@;
    proof {
        store.lemma_slots_ok();
        lemma_grow_base(m1, md, ta1, tb1, p);
        assert((4i32 & 0xFF) == 4i32) by (bit_vector);
    }
    crate::dom::add_item_to_object(store, p, key.as_slice(), nn, false);
    let ghost me = store@;
    proof {
        let sid = choose|sid: crate::store::StrId| #![trigger crate::dom::rekeyed(md, nn, sid, key@, false)] {
            &&& !md.strings.contains_key(sid)
            &&& me.str_slots >= md.str_slots
            &&& sid.0 < me.str_slots
            &&& me == crate::dom::appended(StoreView { str_slots: me.str_slots, ..crate::dom::rekeyed(md, nn, sid, key@, false) }, p, nn)
        };
        lemma_member_added(md, me, p, nn, key@, sid);
        store.lemma_slots_ok();
        lemma_add_after(m1, md, me, ta1, tb1, ta1, tb1, p, nn, key@);
        lemma_kid_in(ta1, i);
        lemma_node_data(m1, me, ta1, tb1, ta1, tb1, p, seq![nn], ka[i].id);
        assert(move_member(me, ta1, tb1, w[n], Some(nn)));
        lemma_gm_next(m0, m1, me, p, ta, tb, ka, kb, ka, kb, plan, Some(nn), i, j, i + 1, j, *e);
        assert forall|k: int| 0 <= k < n + 1 implies move_below(#[trigger] w[k], i + 1, j, true) by {
            if k < n { assert(move_below(w[k], i, j, true)); }
        }
        crate::equal::lemma_kid_ready(me, ta1, i);
        plan = plan.push(Some(nn));
    }
    Ghost(plan)

}

/// One move of the member walk that adds the member `t` of `tb`: a copy of it under its key,
/// when the copy can be made.
#[verifier::spinoff_prover]
#[verifier::rlimit(100)]
fn gm_add_step<E: Fn(u64, u64) -> bool>(store: &mut SafeStore, p: NodeId, t: NodeId, cs: bool, e: &E,
    Ghost(m0): Ghost<StoreView>, Ghost(ta): Ghost<Tree>, Ghost(tb): Ghost<Tree>, Ghost(ka0): Ghost<Seq<Tree>>,
    Ghost(kb0): Ghost<Seq<Tree>>, Ghost(plan0): Ghost<Seq<Option<NodeId>>>, Ghost(i): Ghost<int>, Ghost(j): Ghost<int>,
) -> (r: Ghost<Seq<Option<NodeId>>>)
    requires
        gm_inv(m0, old(store)@, p, ta, tb, ka0, kb0, plan0, i, j, *e),
        j < kb0.len(),
        t == kb0[j].id,
        mp_walk(m0, ta, tb, 0, 0).skip(plan0.len() as int) == seq![Move::Add(j)] + mp_walk(m0, ta, tb, i, j + 1),
    ensures
        gm_inv(m0, final(store)@, p, ta, tb, ka0, kb0, r@, i, j + 1, *e),
        final(store)@.live(t),
        final(store)@.nodes[t].next == (if j + 1 < kb0.len() { Some(kb0[j + 1].id) } else { None::<NodeId> }),
{
    let ghost w = mp_walk(m0, ta, tb, 0, 0);
    let ghost mut ka = ka0;
    let ghost mut kb = kb0;
    let ghost mut plan = plan0;
    let ghost m1 = store@;
    let ghost a = ta.id;
    let ghost b = tb.id;
    let ghost ta1 = Tree { id: a, kids: ka };
    let ghost tb1 = Tree { id: b, kids: kb };
    let ghost n = plan.len() as int;
    proof {
        if i < ka.len() {
            crate::equal::lemma_kid_ready(m1, ta1, i);
        }
        if j < kb.len() {
            crate::equal::lemma_kid_ready(m1, tb1, j);
        }
    }
    let key: Vec<u8> = match crate::store::key_owned(store, t) {
        Some(k) => k,
        None => Vec::new(),
    };
    proof {
        crate::diff::lemma_skip_step(w, n, Move::Add(j), mp_walk(m0, ta, tb, i, j + 1));
        lemma_kid_in(tb1, j);
        crate::diff::lemma_value_ready(m1, tb1, t);
    }
    match crate::dup::duplicate(store, t, true) {
        Some(dn) => {
            let ghost md = store@;
            proof {
                store.lemma_slots_ok();
                let t2 = choose|t2: Tree| #[trigger] crate::dup::duplicated(m1, md, dn, t2, t, true);
                assert(tree_ids(t2)[0] == dn);
                assert(tree_ids(t2).contains(dn));
                lemma_grow_base(m1, md, ta1, tb1, p);
                let ty = m1.nodes[t].ty;
                assert(((ty & !256i32) & 0xFF) == (ty & 0xFF)) by (bit_vector);
                assert(crate::dup::node_copied(md, dn, t));
            }
            crate::dom::add_item_to_object(store, p, key.as_slice(), dn, false);
            let ghost me = store@;
            proof {
                let sid = choose|sid: crate::store::StrId| #![trigger crate::dom::rekeyed(md, dn, sid, key@, false)] {
                    &&& !md.strings.contains_key(sid)
                    &&& me.str_slots >= md.str_slots
                    &&& sid.0 < me.str_slots
                    &&& me == crate::dom::appended(StoreView { str_slots: me.str_slots, ..crate::dom::rekeyed(md, dn, sid, key@, false) }, p, dn)
                };
                lemma_member_added(md, me, p, dn, key@, sid);
                store.lemma_slots_ok();
                lemma_add_after(m1, md, me, ta1, tb1, ta1, tb1, p, dn, key@);
                lemma_node_data(m1, me, ta1, tb1, ta1, tb1, p, seq![dn], kb[j].id);
                assert(md.valuestring_of(t) == m1.valuestring_of(t));
                assert(move_member(me, ta1, tb1, w[n], Some(dn)));
                lemma_gm_next(m0, m1, me, p, ta, tb, ka, kb, ka, kb, plan, Some(dn), i, j, i, j + 1, *e);
                crate::equal::lemma_kid_ready(me, tb1, j);
                plan = plan.push(Some(dn));
            }
        },
        None => {
            proof {
                store.lemma_slots_ok();
                lemma_grow_base(m1, m1, ta1, tb1, p);
                assert(move_member(m1, ta1, tb1, w[n], None::<NodeId>));
                assert(!m1.fail_allocs);
                crate::tree::lemma_tree_is(m1, kb[j], false);
                assert(!crate::dup::depth_ok(kb[j], 0));
                lemma_gm_next(m0, m1, m1, p, ta, tb, ka, kb, ka, kb, plan, None::<NodeId>, i, j, i, j + 1, *e);
                plan = plan.push(None::<NodeId>);
            }
        },
    }
    proof {
        assert forall|k: int| 0 <= k < n + 1 implies move_below(#[trigger] w[k], i, j + 1, true) by {
            if k < n { assert(move_below(w[k], i, j, true)); }
        }
    }
    Ghost(plan)

}

/// One more move of the member walk keeps what `gm_inv` says, the plan grown by `entry`.
#[verifier::spinoff_prover]
proof fn lemma_gm_next<E: Fn(u64, u64) -> bool>(
    m0: StoreView, m1: StoreView, m2: StoreView, p: NodeId, ta: Tree, tb: Tree, ka: Seq<Tree>, kb: Seq<Tree>,
    ka2: Seq<Tree>, kb2: Seq<Tree>, plan: Seq<Option<NodeId>>, entry: Option<NodeId>, i: int, j: int, i2: int, j2: int, e: E,
)
    requires
        gm_inv(m0, m1, p, ta, tb, ka, kb, plan, i, j, e),
        base_post(m1, m2, Tree { id: ta.id, kids: ka }, Tree { id: tb.id, kids: kb }, Tree { id: ta.id, kids: ka2 },
            Tree { id: tb.id, kids: kb2 }, p, match entry { Some(x) => seq![x], None => Seq::<NodeId>::empty() }),
        plan.len() < mp_walk(m0, ta, tb, 0, 0).len(),
        move_member(m2, Tree { id: ta.id, kids: ka2 }, Tree { id: tb.id, kids: kb2 }, mp_walk(m0, ta, tb, 0, 0)[plan.len() as int], entry),
        mp_walk(m0, ta, tb, 0, 0).skip(plan.len() as int + 1) == mp_walk(m0, ta, tb, i2, j2),
        move_below(mp_walk(m0, ta, tb, 0, 0)[plan.len() as int], i2, j2, true),
        i <= i2 <= ka.len(),
        j <= j2 <= kb.len(),
        ka2.len() == ka.len(),
        kb2.len() == kb.len(),
        forall|k: int| 0 <= k < ka.len() ==> #[trigger] ka2[k].id == ka[k].id,
        forall|k: int| 0 <= k < kb.len() ==> #[trigger] kb2[k].id == kb[k].id,
        forall|k: int| i2 <= k < ka.len() ==> #[trigger] ka2[k] == ka[k],
        forall|k: int| j2 <= k < kb.len() ==> #[trigger] kb2[k] == kb[k],
        forall|k: int| 0 <= k < i ==> #[trigger] ka2[k] == ka[k],
        forall|k: int| 0 <= k < j ==> #[trigger] kb2[k] == kb[k],
        entry_owed(m1, Tree { id: ta.id, kids: ka }, Tree { id: tb.id, kids: kb2 }, mp_walk(m0, ta, tb, 0, 0)[plan.len() as int], e)
            ==> entry is Some,
    ensures
        gm_inv(m0, m2, p, ta, tb, ka2, kb2, plan.push(entry), i2, j2, e),
{
    let w = mp_walk(m0, ta, tb, 0, 0);
    let n = plan.len() as int;
    let ta1 = Tree { id: ta.id, kids: ka };
    let tb1 = Tree { id: tb.id, kids: kb };
    let ta2 = Tree { id: ta.id, kids: ka2 };
    let tb2 = Tree { id: tb.id, kids: kb2 };
    assert forall|k: int| 0 <= k < ta.kids.len() implies #[trigger] ta2.kids[k].id == ta1.kids[k].id by {
        assert(ka2[k].id == ka[k].id);
    }
    assert forall|k: int| 0 <= k < tb.kids.len() implies #[trigger] tb2.kids[k].id == tb1.kids[k].id by {
        assert(kb2[k].id == kb[k].id);
    }
    lemma_step_done(m0, m1, m2, ta, tb, ta1, tb1, ta2, tb2, p, plan, entry, w);
    assert forall|k: int| 0 <= k < n + 1 implies move_below(#[trigger] w[k], i2, j2, true) by {
        if k < n { assert(move_below(w[k], i, j, true)); }
    }
    assert forall|k: int| 0 <= k < ka2.len() implies #[trigger] ka2[k].id == ta.kids[k].id by {
        assert(ka2[k].id == ka[k].id);
        assert(ka[k].id == ta.kids[k].id);
    }
    assert forall|k: int| 0 <= k < kb2.len() implies #[trigger] kb2[k].id == tb.kids[k].id by {
        assert(kb2[k].id == kb[k].id);
        assert(kb[k].id == tb.kids[k].id);
    }
    assert forall|k: int| i2 <= k < ka2.len() implies #[trigger] ka2[k] == ta.kids[k] by {
        assert(ka2[k] == ka[k]);
        assert(ka[k] == ta.kids[k]);
    }
    assert forall|k: int| j2 <= k < kb2.len() implies #[trigger] kb2[k] == tb.kids[k] by {
        assert(kb2[k] == kb[k]);
        assert(kb[k] == tb.kids[k]);
    }
    assert(plan.push(entry).len() == n + 1);
    let qs = match entry { Some(x) => seq![x], None => Seq::<NodeId>::empty() };
    assert(diff_ready(m1, ta1, tb1, p));
    assert forall|k: int| #![trigger plan.push(entry)[k]] 0 <= k < plan.push(entry).len() && k < w.len()
        && entry_owed(m2, ta2, tb2, w[k], e)
        implies plan.push(entry)[k] is Some by {
        assert(move_below(w[k], ta.kids.len() as int, tb.kids.len() as int, true));
        match w[k] {
            Move::Both(ii, jj) => {
                if k < n {
                    assert(move_below(w[k], i, j, true));
                    assert(ka2[ii] == ka[ii]);
                    assert(kb2[jj] == kb[jj]);
                }
                lemma_kid_in(ta1, ii);
                lemma_kid_in(tb1, jj);
                lemma_node_data(m1, m2, ta1, tb1, ta2, tb2, p, qs, ka[ii].id);
                lemma_node_data(m1, m2, ta1, tb1, ta2, tb2, p, qs, kb[jj].id);
                lemma_roots_same(m1, m2, ka[ii], kb[jj], ka2[ii], kb2[jj], e);
            },
            Move::Add(jj) => {
                if k < n {
                    assert(move_below(w[k], i, j, true));
                    assert(kb2[jj] == kb[jj]);
                }
            },
            Move::Remove(_) => {},
        }
        if k < n {
            assert(plan.push(entry)[k] == plan[k]);
            assert(plan[k] is Some);
        }
    }
}

/// One move of the member walk that pairs the members `f` of `ta` and `t` of `tb`: when
/// they differ, their merge patch under the key.
#[verifier::spinoff_prover]
#[verifier::rlimit(100)]
fn gm_both_step<E: Fn(u64, u64) -> bool>(store: &mut SafeStore, p: NodeId, f: NodeId, t: NodeId, cs: bool, e: &E,
    Ghost(m0): Ghost<StoreView>, Ghost(ta): Ghost<Tree>, Ghost(tb): Ghost<Tree>, Ghost(ka0): Ghost<Seq<Tree>>,
    Ghost(kb0): Ghost<Seq<Tree>>, Ghost(plan0): Ghost<Seq<Option<NodeId>>>, Ghost(i): Ghost<int>, Ghost(j): Ghost<int>,
    Ghost(x): Ghost<Tree>, Ghost(y): Ghost<Tree>,
) -> (r: Ghost<(Seq<Tree>, Seq<Tree>, Seq<Option<NodeId>>)>)
    requires
        gm_inv(m0, old(store)@, p, ta, tb, ka0, kb0, plan0, i, j, *e),
        i < ka0.len(),
        j < kb0.len(),
        x == ka0[i],
        y == kb0[j],
        f == x.id,
        t == y.id,
        mp_walk(m0, ta, tb, 0, 0).skip(plan0.len() as int) == seq![Move::Both(i, j)] + mp_walk(m0, ta, tb, i + 1, j + 1),
    ensures
        gm_inv(m0, final(store)@, p, ta, tb, r@.0, r@.1, r@.2, i + 1, j + 1, *e),
        final(store)@.live(f),
        final(store)@.live(t),
        final(store)@.nodes[f].next == (if i + 1 < ka0.len() { Some(ka0[i + 1].id) } else { None::<NodeId> }),
        final(store)@.nodes[t].next == (if j + 1 < kb0.len() { Some(kb0[j + 1].id) } else { None::<NodeId> }),
    decreases tsz(x) + tsz(y), 2nat,
{
    let ghost w = mp_walk(m0, ta, tb, 0, 0);
    let ghost mut ka = ka0;
    let ghost mut kb = kb0;
    let ghost mut plan = plan0;
    let ghost m1 = store@;
    let ghost a = ta.id;
    let ghost b = tb.id;
    let ghost ta1 = Tree { id: a, kids: ka };
    let ghost tb1 = Tree { id: b, kids: kb };
    let ghost n = plan.len() as int;
    proof {
        if i < ka.len() {
            crate::equal::lemma_kid_ready(m1, ta1, i);
        }
        if j < kb.len() {
            crate::equal::lemma_kid_ready(m1, tb1, j);
        }
    }
    proof {
        crate::diff::lemma_skip_step(w, n, Move::Both(i, j), mp_walk(m0, ta, tb, i + 1, j + 1));
        crate::diff::lemma_kids_ready(m1, ta1, tb1, i, j, p);
        crate::tree::lemma_tree_is(m1, ka[i], false);
        crate::tree::lemma_tree_is(m1, kb[j], false);
        lemma_kid_smaller(ta, i);
        lemma_kid_smaller(tb, j);
        assert(ka[i] == ta.kids[i]);
        assert(kb[j] == tb.kids[j]);
    }
    let same = crate::equal::compare_json(store, Some(f), Some(t), cs, e);
    let ghost mc = store@;
    let ghost (x1, y1) = choose|x1: Tree, y1: Tree| #[trigger] crate::equal::cj_post(m1, mc, ka[i], kb[j], x1, y1)
        && same == crate::equal::jeq(mc, x1, y1, cs, *e);
    proof {
        lemma_cj_tree_post(m1, mc, ka[i], kb[j], x1, y1);
        lemma_tree_base(m1, mc, ka[i], kb[j], x1, y1, p);
        crate::diff::lemma_dpost_lift(m1, mc, ta1, tb1, i, j, x1, y1, p, Seq::empty());
        crate::equal::lemma_same_size(ka[i], x1);
        crate::equal::lemma_same_size(kb[j], y1);
    }
    let ghost ta2 = Tree { id: a, kids: ka.update(i, x1) };
    let ghost tb2 = Tree { id: b, kids: kb.update(j, y1) };
    if !same {
        let key: Vec<u8> = match crate::store::key_owned(store, t) {
            Some(k) => k,
            None => Vec::new(),
        };
        let (sub, Ghost(pair)) = gmp_rec(store, f, t, false, e, Ghost(x1), Ghost(y1));
        let ghost mr = store@;
        let ghost ta3 = Tree { id: a, kids: ka.update(i, pair.0) };
        let ghost tb3 = Tree { id: b, kids: kb.update(j, pair.1) };
        proof {
            crate::diff::lemma_kids_ready(mc, ta2, tb2, i, j, p);
            lemma_tree_base(mc, mr, x1, y1, pair.0, pair.1, p);
            crate::diff::lemma_dpost_lift(mc, mr, ta2, tb2, i, j, pair.0, pair.1, p, Seq::empty());
            assert(ta2.kids.update(i, pair.0) =~= ka.update(i, pair.0));
            assert(tb2.kids.update(j, pair.1) =~= kb.update(j, pair.1));
            lemma_bpost_trans(m1, mc, mr, ta1, tb1, ta2, tb2, ta3, tb3, p, Seq::empty(), Seq::empty());
            assert(Seq::<NodeId>::empty() + Seq::<NodeId>::empty() =~= Seq::<NodeId>::empty());
        }
        match sub {
            Some(q) => {
                crate::dom::add_item_to_object(store, p, key.as_slice(), q, false);
                let ghost me = store@;
                proof {
                    let sid = choose|sid: crate::store::StrId| #![trigger crate::dom::rekeyed(mr, q, sid, key@, false)] {
                        &&& !mr.strings.contains_key(sid)
                        &&& me.str_slots >= mr.str_slots
                        &&& sid.0 < me.str_slots
                        &&& me == crate::dom::appended(StoreView { str_slots: me.str_slots, ..crate::dom::rekeyed(mr, q, sid, key@, false) }, p, q)
                    };
                    assert(fresh_root(m1, mr, q));
                    lemma_member_added(mr, me, p, q, key@, sid);
                    store.lemma_slots_ok();
                    lemma_add_after(m1, mr, me, ta1, tb1, ta3, tb3, p, q, key@);
                    lemma_kid_in(tb1, j);
                    lemma_node_data(m1, me, ta1, tb1, ta3, tb3, p, seq![q], kb[j].id);
                    assert(move_member(me, ta3, tb3, w[n], Some(q)));
                    lemma_gm_next(m0, m1, me, p, ta, tb, ka, kb, ka.update(i, pair.0), kb.update(j, pair.1), plan, Some(q), i, j, i + 1, j + 1, *e);
                    plan = plan.push(Some(q));
                }
            },
            None => {
                proof {
                    assert(move_member(mr, ta3, tb3, w[n], None::<NodeId>));
                    lemma_roots_same(m1, mc, ka[i], kb[j], x1, y1, *e);
                    if roots_differ(m1, ka[i], kb[j], *e) {
                        crate::tree::lemma_tree_is(mc, y1, false);
                        assert(!mc.fail_allocs);
                        assert(!crate::dup::depth_ok(y1, 0));
                    }
                    lemma_gm_next(m0, m1, mr, p, ta, tb, ka, kb, ka.update(i, pair.0), kb.update(j, pair.1), plan, None::<NodeId>, i, j, i + 1, j + 1, *e);
                    plan = plan.push(None::<NodeId>);
                }
            },
        }
        proof {
            crate::equal::lemma_kid_ready(store@, ta3, i);
            crate::equal::lemma_kid_ready(store@, tb3, j);
            ka = ka.update(i, pair.0);
            kb = kb.update(j, pair.1);
        }
    } else {
        proof {
            assert(move_member(mc, ta2, tb2, w[n], None::<NodeId>));
            lemma_jeq_roots(mc, x1, y1, cs, *e);
            lemma_roots_same(m1, mc, ka[i], kb[j], x1, y1, *e);
            lemma_gm_next(m0, m1, mc, p, ta, tb, ka, kb, ka.update(i, x1), kb.update(j, y1), plan, None::<NodeId>, i, j, i + 1, j + 1, *e);
            plan = plan.push(None::<NodeId>);
            crate::equal::lemma_kid_ready(mc, ta2, i);
            crate::equal::lemma_kid_ready(mc, tb2, j);
            ka = ka.update(i, x1);
            kb = kb.update(j, y1);
        }
    }
    Ghost((ka, kb, plan))

}

/// Add the members for the walk over the members of the objects `a` and `b` (the roots of
/// `ta` and `tb`) to the fresh object `p`.
#[verifier::spinoff_prover]
#[verifier::rlimit(100)]
fn gmp_obj<E: Fn(u64, u64) -> bool>(
    store: &mut SafeStore,
    p: NodeId,
    a: NodeId,
    b: NodeId,
    cs: bool,
    e: &E,
    Ghost(ta): Ghost<Tree>,
    Ghost(tb): Ghost<Tree>,
) -> (r: Ghost<(Tree, Tree, Seq<Option<NodeId>>)>)
    requires
        diff_ready(old(store)@, ta, tb, p),
        old(store)@.children(p) == Seq::<NodeId>::empty(),
        ta.id == a,
        tb.id == b,
        eq_ok(*e),
    ensures
        base_post(old(store)@, final(store)@, ta, tb, r@.0, r@.1, p, somes(r@.2)),
        plan_ok(final(store)@, r@.0, r@.1, mp_walk(final(store)@, r@.0, r@.1, 0, 0), r@.2),
        pairs_entered(final(store)@, r@.0, r@.1, mp_walk(final(store)@, r@.0, r@.1, 0, 0), r@.2, *e),
    decreases tsz(ta) + tsz(tb), 0nat,
{
    let ghost m0 = store@;
    let ghost w = mp_walk(m0, ta, tb, 0, 0);
    let ghost mut ka = ta.kids;
    let ghost mut kb = tb.kids;
    let ghost mut plan: Seq<Option<NodeId>> = Seq::empty();
    let ghost mut i: int = 0;
    let ghost mut j: int = 0;
    proof {
        crate::diff::lemma_dpost_refl(m0, ta, tb, p);
        lemma_ready_root(m0, ta);
        lemma_ready_root(m0, tb);
        lemma_mp_walk_below(m0, ta, tb, 0, 0);
        assert(w.take(0) =~= Seq::<Move>::empty());
        assert(w.skip(0) =~= w);
        assert(somes(Seq::<Option<NodeId>>::empty()) =~= Seq::<NodeId>::empty());
        assert(gm_inv(m0, m0, p, ta, tb, ka, kb, plan, i, j, *e));
    }
    let mut fa = store.child(a);
    let mut fb = store.child(b);
    while fa.is_some() || fb.is_some()
        invariant
            m0 == old(store)@,
            ta.id == a,
            tb.id == b,
            w == mp_walk(m0, ta, tb, 0, 0),
            gm_inv(m0, store@, p, ta, tb, ka, kb, plan, i, j, *e),
            fa == (if i < ka.len() { Some(ka[i].id) } else { None::<NodeId> }),
            fb == (if j < kb.len() { Some(kb[j].id) } else { None::<NodeId> }),
        decreases (ta.kids.len() - i) + (tb.kids.len() - j),
    {
        let ghost m1 = store@;
        let ghost ta1 = Tree { id: a, kids: ka };
        let ghost tb1 = Tree { id: b, kids: kb };
        let ghost n = plan.len() as int;
        proof {
            crate::diff::lemma_keys_kept(m0, m1, ta, tb, ta1, tb1, p, somes(plan), ta, ta1);
            crate::diff::lemma_keys_kept(m0, m1, ta, tb, ta1, tb1, p, somes(plan), tb, tb1);
            if i < ka.len() {
                crate::equal::lemma_kid_ready(m1, ta1, i);
            }
            if j < kb.len() {
                crate::equal::lemma_kid_ready(m1, tb1, j);
            }
        }
        let d: i32 = match (fa, fb) {
            (Some(f), Some(t)) => {
                let kf: Vec<u8> = match crate::store::key_owned(store, f) {
                    Some(k) => k,
                    None => Vec::new(),
                };
                let kt: Vec<u8> = match crate::store::key_owned(store, t) {
                    Some(k) => k,
                    None => Vec::new(),
                };
                crate::utils::lex_bytes(kf.as_slice(), kt.as_slice())
            },
            (Some(_), None) => -1,
            _ => 1,
        };
        if d < 0 {
            let f = fa.unwrap();
            proof {
                assert(w.skip(n) == seq![Move::Remove(i)] + mp_walk(m0, ta, tb, i + 1, j));
            }
            let Ghost(pl) = gm_remove_step(store, p, f, cs, e, Ghost(m0), Ghost(ta), Ghost(tb), Ghost(ka), Ghost(kb),
                Ghost(plan), Ghost(i), Ghost(j));
            proof {
                plan = pl;
                i = i + 1;
            }
            fa = store.next(f);
        } else if d > 0 {
            let t = fb.unwrap();
            proof {
                assert(w.skip(n) == seq![Move::Add(j)] + mp_walk(m0, ta, tb, i, j + 1));
            }
            let Ghost(pl) = gm_add_step(store, p, t, cs, e, Ghost(m0), Ghost(ta), Ghost(tb), Ghost(ka), Ghost(kb),
                Ghost(plan), Ghost(i), Ghost(j));
            proof {
                plan = pl;
                j = j + 1;
            }
            fb = store.next(t);
        } else {
            let f = fa.unwrap();
            let t = fb.unwrap();
            proof {
                lemma_kid_smaller(ta, i);
                lemma_kid_smaller(tb, j);
                assert(ka[i] == ta.kids[i]);
                assert(kb[j] == tb.kids[j]);
                assert(w.skip(n) == seq![Move::Both(i, j)] + mp_walk(m0, ta, tb, i + 1, j + 1));
            }
            let Ghost(st) = gm_both_step(store, p, f, t, cs, e, Ghost(m0), Ghost(ta), Ghost(tb), Ghost(ka), Ghost(kb),
                Ghost(plan), Ghost(i), Ghost(j), Ghost(ka[i]), Ghost(kb[j]));
            proof {
                ka = st.0;
                kb = st.1;
                plan = st.2;
                i = i + 1;
                j = j + 1;
            }
            fa = store.next(f);
            fb = store.next(t);
        }
    }
    proof {
        let ta1 = Tree { id: a, kids: ka };
        let tb1 = Tree { id: b, kids: kb };
        let n = plan.len() as int;
        assert(w.skip(n) =~= Seq::<Move>::empty());
        assert(n == w.len());
        assert(w.take(n) =~= w);
        crate::diff::lemma_keys_kept(m0, store@, ta, tb, ta1, tb1, p, somes(plan), ta, ta1);
        crate::diff::lemma_keys_kept(m0, store@, ta, tb, ta1, tb1, p, somes(plan), tb, tb1);
        lemma_mp_walk_frame(m0, store@, ta, tb, ta1, tb1, 0, 0);
    }
    Ghost((Tree { id: a, kids: ka }, Tree { id: b, kids: kb }, plan))
}

/// The outcome of generating a merge patch from the value of `ta` to that of `tb` (in
/// `after` the trees `ta1`, `tb1`). Unless both are objects: a copy of `tb`'s value, `None`
/// (the store unchanged) when allocation fails or it is too deep to copy. For two objects:
/// `None` when allocation fails; else a plan that follows the walk over their members, and
/// `r` is `None` exactly when the plan added no member, else a fresh object whose members
/// are those of the plan, in order; every pair of members whose values differ at their roots
/// (and can be copied) has its entry.
pub open spec fn merged<E: Fn(u64, u64) -> bool>(before: StoreView, after: StoreView, ta: Tree, tb: Tree, ta1: Tree, tb1: Tree, r: Option<NodeId>, e: E) -> bool {
    if spec_type_kind(before.nodes[ta.id].ty) != OBJECT || spec_type_kind(before.nodes[tb.id].ty) != OBJECT {
        &&& r is None <==> (before.fail_allocs || !crate::dup::depth_ok(crate::dup::dup_source(before, tb.id, true), 0))
        &&& r is None ==> after == before
        &&& r matches Some(d) ==> crate::dup::dup_done(before, after, d, tb.id, true)
        &&& ta1 == ta
        &&& tb1 == tb
    } else if before.fail_allocs {
        r is None
    } else {
        exists|plan: Seq<Option<NodeId>>| #[trigger] plan_ok(after, ta1, tb1, mp_walk(after, ta1, tb1, 0, 0), plan)
            && pairs_entered(after, ta1, tb1, mp_walk(after, ta1, tb1, 0, 0), plan, e)
            && (r is None <==> somes(plan).len() == 0)
            && (r matches Some(q) ==> spec_type_kind(after.nodes[q].ty) == OBJECT && listed(after, q)
                && after.children(q) == somes(plan))
    }
}

/// In the merge patch of two objects, a pair of members under one key whose values already
/// differ at their roots (different kinds, different strings, numbers told apart), and whose
/// target value is shallow enough to copy, always gets a member keyed as the target's: the
/// patch is present and holds such a member.
pub proof fn law_merge_differing_pair<E: Fn(u64, u64) -> bool>(
    before: StoreView, after: StoreView, ta: Tree, tb: Tree, ta1: Tree, tb1: Tree, r: Option<NodeId>, e: E, k: int,
)
    requires
        merged(before, after, ta, tb, ta1, tb1, r, e),
        spec_type_kind(before.nodes[ta.id].ty) == OBJECT,
        spec_type_kind(before.nodes[tb.id].ty) == OBJECT,
        !before.fail_allocs,
        0 <= k < mp_walk(after, ta1, tb1, 0, 0).len(),
        mp_walk(after, ta1, tb1, 0, 0)[k] matches Move::Both(i, j)
            && roots_differ(after, ta1.kids[i], tb1.kids[j], e) && crate::dup::depth_ok(tb1.kids[j], 0),
    ensures
        r matches Some(q) && exists|n: NodeId| #![trigger after.children(q).contains(n)]
            after.children(q).contains(n)
            && after.key_of(n) == Some(key_or_empty(after, tb1.kids[mp_walk(after, ta1, tb1, 0, 0)[k]->Both_1].id)),
{
    let w = mp_walk(after, ta1, tb1, 0, 0);
    let plan = choose|plan: Seq<Option<NodeId>>| #[trigger] plan_ok(after, ta1, tb1, w, plan)
        && pairs_entered(after, ta1, tb1, w, plan, e)
        && (r is None <==> somes(plan).len() == 0)
        && (r matches Some(q) ==> spec_type_kind(after.nodes[q].ty) == OBJECT && listed(after, q)
            && after.children(q) == somes(plan));
    assert(entry_owed(after, ta1, tb1, w[k], e));
    assert(plan[k] is Some);
    let n = plan[k].unwrap();
    assert(move_member(after, ta1, tb1, w[k], plan[k]));
    lemma_somes_contains(plan, k);
    assert(somes(plan).len() > 0);
    let q = r.unwrap();
    assert(after.children(q).contains(n));
}

/// In the merge patch of two objects, a member only the target has, when shallow enough to
/// copy, always gets a copy in the patch: the patch is present and holds a member keyed as
/// it, of its kind and with its number and string.
pub proof fn law_merge_added_member<E: Fn(u64, u64) -> bool>(
    before: StoreView, after: StoreView, ta: Tree, tb: Tree, ta1: Tree, tb1: Tree, r: Option<NodeId>, e: E, k: int,
)
    requires
        merged(before, after, ta, tb, ta1, tb1, r, e),
        spec_type_kind(before.nodes[ta.id].ty) == OBJECT,
        spec_type_kind(before.nodes[tb.id].ty) == OBJECT,
        !before.fail_allocs,
        0 <= k < mp_walk(after, ta1, tb1, 0, 0).len(),
        mp_walk(after, ta1, tb1, 0, 0)[k] matches Move::Add(j) && crate::dup::depth_ok(tb1.kids[j], 0),
    ensures
        ({
            let o = tb1.kids[mp_walk(after, ta1, tb1, 0, 0)[k]->Add_0].id;
            r matches Some(q) && exists|n: NodeId| #![trigger after.children(q).contains(n)]
                after.children(q).contains(n)
                && after.key_of(n) == Some(key_or_empty(after, o))
                && spec_type_kind(after.nodes[n].ty) == spec_type_kind(after.nodes[o].ty)
                && after.nodes[n].valueint == after.nodes[o].valueint
                && after.nodes[n].valuedouble == after.nodes[o].valuedouble
                && after.valuestring_of(n) == after.valuestring_of(o)
        }),
{
    let w = mp_walk(after, ta1, tb1, 0, 0);
    let plan = choose|plan: Seq<Option<NodeId>>| #[trigger] plan_ok(after, ta1, tb1, w, plan)
        && pairs_entered(after, ta1, tb1, w, plan, e)
        && (r is None <==> somes(plan).len() == 0)
        && (r matches Some(q) ==> spec_type_kind(after.nodes[q].ty) == OBJECT && listed(after, q)
            && after.children(q) == somes(plan));
    assert(entry_owed(after, ta1, tb1, w[k], e));
    assert(plan[k] is Some);
    let n = plan[k].unwrap();
    assert(move_member(after, ta1, tb1, w[k], plan[k]));
    lemma_somes_contains(plan, k);
    assert(somes(plan).len() > 0);
    let q = r.unwrap();
    assert(after.children(q).contains(n));
}

/// After the members were walked, an object `p` without members is deleted.
#[verifier::spinoff_prover]
#[verifier::rlimit(60)]
proof fn lemma_empty_deleted<E: Fn(u64, u64) -> bool>(m1: StoreView, m3: StoreView, m4: StoreView, ta: Tree, tb: Tree, ta1: Tree, tb1: Tree, p: NodeId, plan: Seq<Option<NodeId>>, e: E)
    requires
        pairs_entered(m3, ta1, tb1, mp_walk(m3, ta1, tb1, 0, 0), plan, e),
        tree_post(m1, m3, ta, tb, ta1, tb1),
        !m1.live(p),
        m3.live(p),
        !tree_ids(ta1).contains(p),
        !tree_ids(tb1).contains(p),
        plan_ok(m3, ta1, tb1, mp_walk(m3, ta1, tb1, 0, 0), plan),
        somes(plan).len() == 0,
        m4 == (StoreView { nodes: m3.nodes.remove(p), ..m3 }),
    ensures
        tree_post(m1, m4, ta, tb, ta1, tb1),
        plan_ok(m4, ta1, tb1, mp_walk(m4, ta1, tb1, 0, 0), plan),
        pairs_entered(m4, ta1, tb1, mp_walk(m4, ta1, tb1, 0, 0), plan, e),
{
    lemma_ids_live(m3, ta1);
    lemma_ids_live(m3, tb1);
    assert forall|x: NodeId| #[trigger] tree_ids(ta1).contains(x) implies m4.nodes[x] == m3.nodes[x] && m4.live(x) by {}
    assert forall|x: NodeId| #[trigger] tree_ids(tb1).contains(x) implies m4.nodes[x] == m3.nodes[x] && m4.live(x) by {}
    lemma_ready_frame(m3, m4, ta1);
    lemma_ready_frame(m3, m4, tb1);
    assert forall|k: int| 0 <= k < ta1.kids.len() implies #[trigger] m4.key_of(ta1.kids[k].id) == m3.key_of(ta1.kids[k].id) by {
        lemma_kid_in(ta1, k);
    }
    assert forall|k: int| 0 <= k < tb1.kids.len() implies #[trigger] m4.key_of(tb1.kids[k].id) == m3.key_of(tb1.kids[k].id) by {
        lemma_kid_in(tb1, k);
    }
    lemma_mp_walk_frame(m3, m4, ta1, tb1, ta1, tb1, 0, 0);
    lemma_mp_walk_below(m3, ta1, tb1, 0, 0);
    let w = mp_walk(m3, ta1, tb1, 0, 0);
    assert forall|k: int| #![trigger plan[k]] 0 <= k < plan.len() && k < w.len()
        && entry_owed(m4, ta1, tb1, w[k], e)
        implies plan[k] is Some by {
        assert(move_below(w[k], ta1.kids.len() as int, tb1.kids.len() as int, true));
        if let Move::Both(ii, jj) = w[k] {
            lemma_kid_in(ta1, ii);
            lemma_kid_in(tb1, jj);
            assert(roots_differ(m3, ta1.kids[ii], tb1.kids[jj], e));
        }
        assert(entry_owed(m3, ta1, tb1, w[k], e));
    }
    assert forall|k: int| 0 <= k < w.len() implies #[trigger] move_member(m4, ta1, tb1, w[k], plan[k]) by {
        assert(move_member(m3, ta1, tb1, w[k], plan[k]));
        assert(move_below(w[k], ta1.kids.len() as int, tb1.kids.len() as int, true));
        if plan[k] is Some {
            lemma_somes_contains(plan, k);
        }
        match w[k] {
            Move::Remove(ii) => {},
            Move::Add(jj) => {},
            Move::Both(ii, jj) => {
                lemma_kid_in(tb1, jj);
            },
        }
    }
    assert forall|x: NodeId| m1.live(x) && !tree_ids(ta).contains(x) && !tree_ids(tb).contains(x)
        implies #[trigger] m4.nodes[x] == m1.nodes[x] by {
        assert(m3.nodes[x] == m1.nodes[x]);
    }
    assert forall|x: NodeId| #[trigger] m1.live(x) implies m4.live(x) by {
        assert(m3.live(x));
    }
    lemma_tree_contains(ta1, ta1.id);
    lemma_tree_contains(tb1, tb1.id);
}

/// The generation of a merge patch from the value below `from` (the root of `ta`) to
/// that below `to` (the root of `tb`); nested pairs of objects are sorted by key without
/// regard to case.
#[verifier::spinoff_prover]
#[verifier::rlimit(100)]
fn gmp_rec<E: Fn(u64, u64) -> bool>(
    store: &mut SafeStore,
    from: NodeId,
    to: NodeId,
    cs: bool,
    e: &E,
    Ghost(ta): Ghost<Tree>,
    Ghost(tb): Ghost<Tree>,
) -> (r: (Option<NodeId>, Ghost<(Tree, Tree)>))
    requires
        mp_ready(old(store)@, ta, tb),
        ta.id == from,
        tb.id == to,
        eq_ok(*e),
    ensures
        tree_post(old(store)@, final(store)@, ta, tb, r.1@.0, r.1@.1),
        r.0 matches Some(q) ==> fresh_root(old(store)@, final(store)@, q),
        merged(old(store)@, final(store)@, ta, tb, r.1@.0, r.1@.1, r.0, *e),
    decreases tsz(ta) + tsz(tb), 1nat,
{
    let ghost m0 = store@;
    proof {
        lemma_ready_root(m0, ta);
        lemma_ready_root(m0, tb);
        lemma_tree_contains(tb, to);
    }
    let kf = crate::types::type_kind(store.ty(from));
    let kt = crate::types::type_kind(store.ty(to));
    if kf != OBJECT || kt != OBJECT {
        proof { crate::diff::lemma_value_ready(m0, tb, to); }
        let d = crate::dup::duplicate(store, to, true);
        proof {
            store.lemma_slots_ok();
            match d {
                Some(dn) => {
                    let t2 = choose|t2: Tree| #[trigger] crate::dup::duplicated(m0, store@, dn, t2, to, true);
                    assert(tree_ids(t2)[0] == dn);
                    assert(tree_ids(t2).contains(dn));
                    lemma_grow_tree(m0, store@, ta, tb);
                    assert(crate::dup::node_copied(store@, dn, to));
                },
                None => {
                    lemma_grow_tree(m0, m0, ta, tb);
                },
            }
        }
        return (d, Ghost((ta, tb)));
    }
    let (ta1, tb1) = crate::equal::sort_pair(store, from, to, cs, Ghost(ta), Ghost(tb));
    let ghost m1 = store@;
    proof {
        lemma_cj_tree_post(m0, m1, ta, tb, ta1@, tb1@);
        crate::equal::lemma_same_size(ta, ta1@);
        crate::equal::lemma_same_size(tb, tb1@);
    }
    let p = match crate::dom::create_object(store) {
        Some(p) => p,
        None => return (None, Ghost((ta1@, tb1@))),
    };
    let ghost m2 = store@;
    proof {
        store.lemma_slots_ok();
        lemma_obj_start(m1, m2, ta1@, tb1@, p);
    }
    let Ghost(res) = gmp_obj(store, p, from, to, cs, e, ta1, tb1);
    let ghost m3 = store@;
    proof {
        lemma_tree_from_base(m1, m2, m3, ta1@, tb1@, res.0, res.1, p, somes(res.2));
        lemma_tree_trans(m0, m1, m3, ta, tb, ta1@, tb1@, res.0, res.1);
        assert(m3.children(p) =~= somes(res.2));
    }
    if store.child(p).is_none() {
        proof {
            assert(somes(res.2).len() == 0) by {
                if somes(res.2).len() > 0 {
                    crate::tree::lemma_chain_is(m3, m3.nodes[p].child, m3.children(p));
                }
            }
            lemma_delete_lone(m3, p);
        }
        store.delete(Some(p));
        proof {
            lemma_empty_deleted(m0, m3, store@, ta, tb, res.0, res.1, p, res.2, *e);
            assert(plan_ok(store@, res.0, res.1, mp_walk(store@, res.0, res.1, 0, 0), res.2));
        }
        return (None, Ghost((res.0, res.1)));
    }
    proof {
        assert(plan_ok(m3, res.0, res.1, mp_walk(m3, res.0, res.1, 0, 0), res.2));
        assert(somes(res.2).len() > 0) by {
            if somes(res.2).len() == 0 {
                assert(m3.children(p) =~= Seq::<NodeId>::empty());
                crate::tree::lemma_chain_is(m3, m3.nodes[p].child, m3.children(p));
            }
        }
    }
    (Some(p), Ghost((res.0, res.1)))
}

/// What generating a merge patch needs: with both values, documents ready for the
/// comparison, with live strings and no node in both; with only `to`, a value that can be
/// copied.
pub open spec fn gm_ready(m: StoreView, from: Option<NodeId>, to: Option<NodeId>) -> bool {
    match (from, to) {
        (Some(f), Some(t)) => m.has_tree(f, false) && m.has_tree(t, false) && mp_ready(m, m.tree_of(f, false), m.tree_of(t, false)),
        (None, Some(t)) => crate::dup::dup_ready(m, t, true),
        _ => true,
    }
}

/// The outcome of generating a merge patch between two documents: the trees below them
/// became `ta1` and `tb1` (see `tree_post` and `merged`).
pub open spec fn merge_done<E: Fn(u64, u64) -> bool>(before: StoreView, after: StoreView, from: NodeId, to: NodeId, r: Option<NodeId>, e: E) -> bool {
    exists|ta1: Tree, tb1: Tree| #[trigger] tree_post(before, after, before.tree_of(from, false), before.tree_of(to, false), ta1, tb1)
        && merged(before, after, before.tree_of(from, false), before.tree_of(to, false), ta1, tb1, r, e)
        && (r matches Some(q) ==> fresh_root(before, after, q))
}

/// The merge patch (RFC 7396) that takes the value
/// below `from` to that below `to`. Without `to`, a fresh null; without `from`, a copy of
/// `to`; when either is not an object, a copy of `to`; for two objects (sorted in place,
/// by key in the case `case_sensitive` chooses), an object with a null for each member
/// only `from` has, a copy of each member only `to` has, and the merge patch of each pair
/// that compares unequal (sorted without regard to case), keyed as `to`'s; `None` when
/// that object would be empty. Numbers compare by `e` on their bits.
pub fn generate_merge_patch<E: Fn(u64, u64) -> bool>(
    store: &mut SafeStore,
    from: Option<NodeId>,
    to: Option<NodeId>,
    case_sensitive: bool,
    e: &E,
) -> (r: Option<NodeId>)
    requires
        eq_ok(*e),
        gm_ready(old(store)@, from, to),
    ensures
        to is None ==> crate::dom::created(old(store)@, final(store)@, r, crate::dom::typed(NULL)),
        to is Some && from is None ==> {
            &&& r is None <==> (old(store)@.fail_allocs
                || !crate::dup::depth_ok(crate::dup::dup_source(old(store)@, to.unwrap(), true), 0))
            &&& r is None ==> final(store)@ == old(store)@
            &&& r matches Some(d) ==> crate::dup::dup_done(old(store)@, final(store)@, d, to.unwrap(), true)
        },
        to is Some && from is Some ==> merge_done(old(store)@, final(store)@, from.unwrap(), to.unwrap(), r, *e),
{
    let t = match to {
        Some(t) => t,
        None => return crate::dom::create_null(store),
    };
    let f = match from {
        Some(f) => f,
        None => return crate::dup::duplicate(store, t, true),
    };
    let ghost m0 = store@;
    let ghost ta = m0.tree_of(f, false);
    let ghost tb = m0.tree_of(t, false);
    proof {
        crate::tree::lemma_tree_is(m0, ta, false);
        crate::tree::lemma_tree_is(m0, tb, false);
    }
    let (r, Ghost(pair)) = gmp_rec(store, f, t, case_sensitive, e, Ghost(ta), Ghost(tb));
    proof {
        assert(tree_post(m0, store@, ta, tb, pair.0, pair.1));
    }
    r
}

} // verus!
