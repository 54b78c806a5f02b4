//! Structural equality of two trees.
use vstd::prelude::*;
use crate::store::{NodeId, SafeStore, StoreView};
use crate::tree::{Tree, tops, tree_ids, forest_ids};
use crate::types::{spec_type_kind, spec_bytes_eq_case, FALSE, TRUE, NULL, NUMBER, STRING, RAW, ARRAY, OBJECT};
use crate::print::strs_ok;

verus! {

/// An equality test on doubles (given as IEEE-754 bits) that can be called on every pair
/// and gives one answer for one pair.
pub open spec fn eq_ok<E: Fn(u64, u64) -> bool>(e: E) -> bool {
    &&& forall|x: u64, y: u64| #[trigger] e.requires((x, y))
    &&& forall|x: u64, y: u64, r1: bool, r2: bool|
        #[trigger] e.ensures((x, y), r1) && #[trigger] e.ensures((x, y), r2) ==> r1 == r2
}

/// The answer of the equality test on a pair.
pub open spec fn eq_of<E: Fn(u64, u64) -> bool>(e: E, x: u64, y: u64) -> bool {
    e.ensures((x, y), true)
}

fn call_eq<E: Fn(u64, u64) -> bool>(e: &E, x: u64, y: u64) -> (r: bool)
    requires
        eq_ok(*e),
    ensures
        r == eq_of(*e, x, y),
{
    e(x, y)
}

/// The number of nodes of a tree.
pub open spec fn tsz(t: Tree) -> nat {
    tree_ids(t).len()
}

pub proof fn lemma_kid_smaller(t: Tree, i: int)
    requires
        0 <= i < t.kids.len(),
    ensures
        tsz(t.kids[i]) < tsz(t),
{
    crate::tree::lemma_forest_ids_split(t.kids, i);
    assert(tree_ids(t) == seq![t.id] + forest_ids(t.kids));
}

/// The first child of an object (among `ts`) that has a key matching `name`, or the length.
pub open spec fn key_find(m: StoreView, ts: Seq<Tree>, name: Option<Seq<u8>>, cs: bool, j: int) -> int
    decreases ts.len() - j,
{
    if j < 0 || j >= ts.len() {
        ts.len() as int
    } else if m.key_of(ts[j].id) is Some && spec_bytes_eq_case(m.key_of(ts[j].id), name, cs) {
        j
    } else {
        key_find(m, ts, name, cs, j + 1)
    }
}

pub proof fn lemma_key_find(m: StoreView, ts: Seq<Tree>, name: Option<Seq<u8>>, cs: bool, j: int)
    requires
        0 <= j <= ts.len(),
    ensures
        j <= key_find(m, ts, name, cs, j) <= ts.len(),
    decreases ts.len() - j,
{
    if j < ts.len() {
        lemma_key_find(m, ts, name, cs, j + 1);
    }
}

/// Whether `ta` and `tb` hold equal values.
pub open spec fn same<E: Fn(u64, u64) -> bool>(m: StoreView, ta: Tree, tb: Tree, cs: bool, e: E) -> bool
    decreases tsz(ta) + tsz(tb), 2nat, 0nat,
{
    let da = m.nodes[ta.id];
    let db = m.nodes[tb.id];
    let k = spec_type_kind(da.ty);
    if k != spec_type_kind(db.ty) {
        false
    } else if !(k == FALSE || k == TRUE || k == NULL || k == NUMBER || k == STRING || k == RAW || k == ARRAY || k == OBJECT) {
        false
    } else if ta.id == tb.id {
        true
    } else if k == FALSE || k == TRUE || k == NULL {
        true
    } else if k == NUMBER {
        eq_of(e, da.valuedouble, db.valuedouble)
    } else if k == STRING || k == RAW {
        match (m.str_bytes(da.valuestring), m.str_bytes(db.valuestring)) {
            (Some(x), Some(y)) => x == y,
            _ => false,
        }
    } else if k == ARRAY {
        ta.kids.len() == tb.kids.len() && pairs_from(m, ta, tb, 0, cs, e)
    } else {
        fwd_from(m, ta, tb, 0, cs, e) && bwd_from(m, ta, tb, 0, cs, e)
    }
}

/// The elements of two arrays from index `i` on, pairwise (up to the shorter one).
pub open spec fn pairs_from<E: Fn(u64, u64) -> bool>(m: StoreView, ta: Tree, tb: Tree, i: int, cs: bool, e: E) -> bool
    decreases tsz(ta) + tsz(tb), 1nat, ta.kids.len() - i,
{
    if i < 0 || i >= ta.kids.len() || i >= tb.kids.len() {
        true
    } else {
        kid_same(m, ta, tb, i, i, false, cs, e) && pairs_from(m, ta, tb, i + 1, cs, e)
    }
}

/// Each member of `ta` from index `i` on has a member of `tb` with its key and an equal value.
pub open spec fn fwd_from<E: Fn(u64, u64) -> bool>(m: StoreView, ta: Tree, tb: Tree, i: int, cs: bool, e: E) -> bool
    decreases tsz(ta) + tsz(tb), 1nat, ta.kids.len() - i,
{
    if i < 0 || i >= ta.kids.len() {
        true
    } else {
        kid_same(m, ta, tb, i, key_find(m, tb.kids, m.key_of(ta.kids[i].id), cs, 0), false, cs, e)
            && fwd_from(m, ta, tb, i + 1, cs, e)
    }
}

/// Each member of `tb` from index `j` on has a member of `ta` with its key, and compares
/// equal to it (from the side of `tb`).
pub open spec fn bwd_from<E: Fn(u64, u64) -> bool>(m: StoreView, ta: Tree, tb: Tree, j: int, cs: bool, e: E) -> bool
    decreases tsz(ta) + tsz(tb), 1nat, tb.kids.len() - j,
{
    if j < 0 || j >= tb.kids.len() {
        true
    } else {
        kid_same(m, ta, tb, key_find(m, ta.kids, m.key_of(tb.kids[j].id), cs, 0), j, true, cs, e)
            && bwd_from(m, ta, tb, j + 1, cs, e)
    }
}

/// The `i`-th child of `ta` and the `j`-th of `tb` are there and hold equal values (compared
/// from the side of `tb` when `swapped`).
pub open spec fn kid_same<E: Fn(u64, u64) -> bool>(m: StoreView, ta: Tree, tb: Tree, i: int, j: int, swapped: bool, cs: bool, e: E) -> bool
    decreases tsz(ta) + tsz(tb), 0nat, 0nat,
{
    if 0 <= i < ta.kids.len() && 0 <= j < tb.kids.len() {
        proof {
            lemma_kid_smaller(ta, i);
            lemma_kid_smaller(tb, j);
        }
        if swapped { same(m, tb.kids[j], ta.kids[i], cs, e) } else { same(m, ta.kids[i], tb.kids[j], cs, e) }
    } else {
        false
    }
}

/// What `same` says of two distinct leaves, from their fields alone: values of different
/// kinds differ; two numbers are equal exactly when the comparison `e` holds on their
/// doubles; two strings (or raw texts) exactly when both are present and byte for byte
/// equal; `false`, `true` and `null` equal their own kind.
pub proof fn law_same_leaves<E: Fn(u64, u64) -> bool>(m: StoreView, ta: Tree, tb: Tree, cs: bool, e: E)
    requires
        ta.id != tb.id,
    ensures
        spec_type_kind(m.nodes[ta.id].ty) != spec_type_kind(m.nodes[tb.id].ty) ==> !same(m, ta, tb, cs, e),
        spec_type_kind(m.nodes[ta.id].ty) == NUMBER && spec_type_kind(m.nodes[tb.id].ty) == NUMBER
            ==> (same(m, ta, tb, cs, e) <==> e.ensures((m.nodes[ta.id].valuedouble, m.nodes[tb.id].valuedouble), true)),
        spec_type_kind(m.nodes[ta.id].ty) == STRING && spec_type_kind(m.nodes[tb.id].ty) == STRING
            ==> (same(m, ta, tb, cs, e) <==> (m.valuestring_of(ta.id) is Some && m.valuestring_of(ta.id) == m.valuestring_of(tb.id))),
        spec_type_kind(m.nodes[ta.id].ty) == spec_type_kind(m.nodes[tb.id].ty)
            && (spec_type_kind(m.nodes[ta.id].ty) == FALSE || spec_type_kind(m.nodes[ta.id].ty) == TRUE
                || spec_type_kind(m.nodes[ta.id].ty) == NULL)
            ==> same(m, ta, tb, cs, e),
{
}

} // verus!

verus! {

/// What the comparison needs of a tree: it is valid below its root and its string handles
/// are readable.
pub open spec fn tree_ready(m: StoreView, t: Tree) -> bool {
    m.tree_valid(t, false) && strs_ok(m, t)
}

pub proof fn lemma_ready_kid(m: StoreView, t: Tree, i: int)
    requires
        tree_ready(m, t),
        0 <= i < t.kids.len(),
    ensures
        tree_ready(m, t.kids[i]),
        m.nodes[t.kids[i].id].next == (if i + 1 < t.kids.len() { Some(t.kids[i + 1].id) } else { None::<NodeId> }),
        m.live(t.kids[i].id),
        m.str_ok(m.nodes[t.kids[i].id].key),
        m.nodes[t.id].child == Some(t.kids[0].id),
{
    let ts = t.kids;
    assert(tops(ts)[i] == ts[i].id);
    assert(tops(ts)[0] == ts[0].id);
    if i + 1 < ts.len() {
        assert(tops(ts)[i + 1] == ts[i + 1].id);
    }
    crate::print::lemma_strs_ok_kid_pub(m, t, i);
    assert(tree_ids(ts[i])[0] == ts[i].id);
    assert(tree_ids(ts[i]).contains(ts[i].id));
}

pub proof fn lemma_ready_root(m: StoreView, t: Tree)
    requires
        tree_ready(m, t),
    ensures
        m.live(t.id),
        m.str_ok(m.nodes[t.id].valuestring),
        m.nodes[t.id].child == (if t.kids.len() > 0 { Some(t.kids[0].id) } else { None::<NodeId> }),
{
    assert(tree_ids(t)[0] == t.id);
    assert(tree_ids(t).contains(t.id));
    if t.kids.len() > 0 {
        assert(tops(t.kids)[0] == t.kids[0].id);
    }
}

/// The child of `parent` (the root of `t`) found by key, as `key_find` says.
fn find_key(store: &SafeStore, parent: NodeId, name: Option<&[u8]>, cs: bool, Ghost(t): Ghost<Tree>) -> (r: Option<NodeId>)
    requires
        tree_ready(store@, t),
        t.id == parent,
    ensures
        ({
            let j = key_find(store@, t.kids, crate::types::opt_bytes(name), cs, 0);
            r == (if j < t.kids.len() { Some(t.kids[j].id) } else { None::<NodeId> })
        }),
{
    let ghost m = store@;
    let ghost ts = t.kids;
    proof { lemma_ready_root(m, t); }
    let mut cur = store.child(parent);
    let ghost mut k: int = 0;
    while cur.is_some()
        invariant
            m == store@,
            tree_ready(m, t),
            ts == t.kids,
            0 <= k <= ts.len(),
            key_find(m, ts, crate::types::opt_bytes(name), cs, 0) == key_find(m, ts, crate::types::opt_bytes(name), cs, k),
            cur == (if k < ts.len() { Some(ts[k].id) } else { None::<NodeId> }),
        decreases ts.len() - k,
    {
        let el = cur.unwrap();
        proof { lemma_ready_kid(m, t, k); }
        let key = store.key_bytes(el);
        if crate::types::bytes_eq_case(key, name, cs) && key.is_some() {
            return Some(el);
        }
        cur = store.next(el);
        proof { k = k + 1; }
    }
    None
}

fn compare_rec<E: Fn(u64, u64) -> bool>(
    store: &SafeStore,
    a: NodeId,
    b: NodeId,
    cs: bool,
    e: &E,
    Ghost(ta): Ghost<Tree>,
    Ghost(tb): Ghost<Tree>,
) -> (r: bool)
    requires
        tree_ready(store@, ta),
        tree_ready(store@, tb),
        ta.id == a,
        tb.id == b,
        eq_ok(*e),
    ensures
        r == same(store@, ta, tb, cs, *e),
    decreases tsz(ta) + tsz(tb),
{
    let ghost m = store@;
    proof {
        lemma_ready_root(m, ta);
        lemma_ready_root(m, tb);
    }
    let k = crate::types::type_kind(store.ty(a));
    if k != crate::types::type_kind(store.ty(b)) {
        return false;
    }
    if !(k == FALSE || k == TRUE || k == NULL || k == NUMBER || k == STRING || k == RAW || k == ARRAY || k == OBJECT) {
        return false;
    }
    if a == b {
        return true;
    }
    if k == FALSE || k == TRUE || k == NULL {
        return true;
    }
    if k == NUMBER {
        return call_eq(e, store.valuedouble(a), store.valuedouble(b));
    }
    if k == STRING || k == RAW {
        return match (store.valuestring_bytes(a), store.valuestring_bytes(b)) {
            (Some(x), Some(y)) => crate::types::bytes_equal(x, y),
            _ => false,
        };
    }
    if k == ARRAY {
        let ghost la = ta.kids.len();
        let ghost lb = tb.kids.len();
        let mut ca = store.child(a);
        let mut cb = store.child(b);
        let ghost mut i: int = 0;
        while ca.is_some() && cb.is_some()
            invariant
                m == store@,
                tree_ready(m, ta),
                tree_ready(m, tb),
                eq_ok(*e),
                ta.id == a,
                tb.id == b,
                a != b,
                spec_type_kind(m.nodes[a].ty) == ARRAY,
                spec_type_kind(m.nodes[b].ty) == ARRAY,
                la == ta.kids.len(),
                lb == tb.kids.len(),
                0 <= i <= la,
                i <= lb,
                ca == (if i < la { Some(ta.kids[i].id) } else { None::<NodeId> }),
                cb == (if i < lb { Some(tb.kids[i].id) } else { None::<NodeId> }),
                pairs_from(m, ta, tb, 0, cs, *e) == pairs_from(m, ta, tb, i, cs, *e),
            decreases la - i,
        {
            let x = ca.unwrap();
            let y = cb.unwrap();
            proof {
                lemma_ready_kid(m, ta, i);
                lemma_ready_kid(m, tb, i);
                lemma_kid_smaller(ta, i);
                lemma_kid_smaller(tb, i);
            }
            if !compare_rec(store, x, y, cs, e, Ghost(ta.kids[i]), Ghost(tb.kids[i])) {
                proof { assert(!kid_same(m, ta, tb, i, i, false, cs, *e)); }
                return false;
            }
            proof { assert(kid_same(m, ta, tb, i, i, false, cs, *e)); }
            ca = store.next(x);
            cb = store.next(y);
            proof { i = i + 1; }
        }
        return ca.is_none() && cb.is_none();
    }
    let ghost la = ta.kids.len();
    let ghost lb = tb.kids.len();
    let mut ca = store.child(a);
    let ghost mut i: int = 0;
    while ca.is_some()
        invariant
            m == store@,
            tree_ready(m, ta),
            tree_ready(m, tb),
            eq_ok(*e),
            ta.id == a,
            tb.id == b,
            a != b,
            spec_type_kind(m.nodes[a].ty) == OBJECT,
            spec_type_kind(m.nodes[b].ty) == OBJECT,
            la == ta.kids.len(),
            lb == tb.kids.len(),
            0 <= i <= la,
            ca == (if i < la { Some(ta.kids[i].id) } else { None::<NodeId> }),
            fwd_from(m, ta, tb, 0, cs, *e) == fwd_from(m, ta, tb, i, cs, *e),
        decreases la - i,
    {
        let x = ca.unwrap();
        proof {
            lemma_ready_kid(m, ta, i);
            lemma_key_find(m, tb.kids, m.key_of(ta.kids[i].id), cs, 0);
        }
        let key = store.key_bytes(x);
        let ghost jj = key_find(m, tb.kids, m.key_of(ta.kids[i].id), cs, 0);
        let y = match find_key(store, b, key, cs, Ghost(tb)) {
            Some(y) => y,
            None => {
                proof { assert(!kid_same(m, ta, tb, i, jj, false, cs, *e)); }
                return false;
            },
        };
        proof {
            lemma_ready_kid(m, tb, jj);
            lemma_kid_smaller(ta, i);
            lemma_kid_smaller(tb, jj);
        }
        if !compare_rec(store, x, y, cs, e, Ghost(ta.kids[i]), Ghost(tb.kids[jj])) {
            proof { assert(!kid_same(m, ta, tb, i, jj, false, cs, *e)); }
            return false;
        }
        proof { assert(kid_same(m, ta, tb, i, jj, false, cs, *e)); }
        ca = store.next(x);
        proof { i = i + 1; }
    }
    let mut cb = store.child(b);
    let ghost mut j: int = 0;
    while cb.is_some()
        invariant
            m == store@,
            tree_ready(m, ta),
            tree_ready(m, tb),
            eq_ok(*e),
            ta.id == a,
            tb.id == b,
            a != b,
            spec_type_kind(m.nodes[a].ty) == OBJECT,
            spec_type_kind(m.nodes[b].ty) == OBJECT,
            la == ta.kids.len(),
            lb == tb.kids.len(),
            0 <= j <= lb,
            fwd_from(m, ta, tb, 0, cs, *e),
            cb == (if j < lb { Some(tb.kids[j].id) } else { None::<NodeId> }),
            bwd_from(m, ta, tb, 0, cs, *e) == bwd_from(m, ta, tb, j, cs, *e),
        decreases lb - j,
    {
        let y = cb.unwrap();
        proof {
            lemma_ready_kid(m, tb, j);
            lemma_key_find(m, ta.kids, m.key_of(tb.kids[j].id), cs, 0);
        }
        let key = store.key_bytes(y);
        let ghost ii = key_find(m, ta.kids, m.key_of(tb.kids[j].id), cs, 0);
        let x = match find_key(store, a, key, cs, Ghost(ta)) {
            Some(x) => x,
            None => {
                proof { assert(!kid_same(m, ta, tb, ii, j, true, cs, *e)); }
                return false;
            },
        };
        proof {
            lemma_ready_kid(m, ta, ii);
            lemma_kid_smaller(ta, ii);
            lemma_kid_smaller(tb, j);
        }
        if !compare_rec(store, y, x, cs, e, Ghost(tb.kids[j]), Ghost(ta.kids[ii])) {
            proof { assert(!kid_same(m, ta, tb, ii, j, true, cs, *e)); }
            return false;
        }
        proof { assert(kid_same(m, ta, tb, ii, j, true, cs, *e)); }
        cb = store.next(y);
        proof { j = j + 1; }
    }
    true
}

/// Whether `a` and `b` hold equal values. Numbers are compared by
/// the equality test `e`; object members are matched by key in both directions.
pub fn compare<E: Fn(u64, u64) -> bool>(store: &SafeStore, a: NodeId, b: NodeId, case_sensitive: bool, e: &E) -> (r: bool)
    requires
        store@.has_tree(a, false),
        store@.has_tree(b, false),
        strs_ok(store@, store@.tree_of(a, false)),
        strs_ok(store@, store@.tree_of(b, false)),
        eq_ok(*e),
    ensures
        r == same(store@, store@.tree_of(a, false), store@.tree_of(b, false), case_sensitive, *e),
{
    compare_rec(store, a, b, case_sensitive, e, Ghost(store@.tree_of(a, false)), Ghost(store@.tree_of(b, false)))
}


} // verus!

