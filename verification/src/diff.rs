//! Generating a JSON patch (RFC 6902) that takes one document to another: objects are compared member by member in key order
//! (after sorting both in place), arrays element by element.
use vstd::prelude::*;
use crate::store::{NodeId, SafeStore, StoreView};
use crate::tree::{Tree, tree_ids, tops};
use crate::types::{spec_type_kind, NUMBER, STRING, ARRAY, OBJECT};
use crate::compare::{eq_ok, eq_of, tsz, lemma_kid_smaller, lemma_ready_root};
use crate::utils::key_order;
use crate::patch::{patch_path, patch_is, patch_feet};
use crate::equal::{cj_ready, disjoint, same_data, lemma_swap_kid, lemma_tree_contains};
use crate::dup::strs_live;
use crate::dom::listed;

verus! {

/// One patch operation: its name, its path and the node whose value it carries.
pub type Step = (Seq<u8>, Seq<u8>, Option<NodeId>);

pub open spec fn op_add() -> Seq<u8> {
    seq![97u8, 100, 100]
}

pub open spec fn op_remove() -> Seq<u8> {
    seq![114u8, 101, 109, 111, 118, 101]
}

pub open spec fn op_replace() -> Seq<u8> {
    seq![114u8, 101, 112, 108, 97, 99, 101]
}

/// The decimal digits of `n`.
pub open spec fn dec(n: nat) -> Seq<u8>
    decreases n,
{
    if n < 10 {
        seq![(48 + n) as u8]
    } else {
        dec(n / 10).push((48 + n % 10) as u8)
    }
}

proof fn lemma_sat_value_prefix(s: Seq<u8>, d: u8, k: int)
    requires
        0 <= k <= s.len(),
    ensures
        crate::pointer::sat_value(s.push(d), k) == crate::pointer::sat_value(s, k),
    decreases k,
{
    if k > 0 {
        lemma_sat_value_prefix(s, d, k - 1);
        assert(s.push(d)[k - 1] == s[k - 1]);
    }
}

proof fn lemma_digit_run_all(s: Seq<u8>, i: int)
    requires
        0 <= i <= s.len(),
        forall|k: int| 0 <= k < s.len() ==> crate::pointer::is_digit_byte(#[trigger] s[k]),
    ensures
        crate::pointer::digit_run(s, i) == s.len(),
    decreases s.len() - i,
{
    if i < s.len() {
        lemma_digit_run_all(s, i + 1);
    }
}

proof fn lemma_dec_digits(n: nat)
    ensures
        dec(n).len() >= 1,
        forall|k: int| 0 <= k < dec(n).len() ==> crate::pointer::is_digit_byte(#[trigger] dec(n)[k]),
        n >= 10 ==> dec(n)[0] != 48,
        n < 10 ==> dec(n).len() == 1,
        n <= usize::MAX ==> crate::pointer::sat_value(dec(n), dec(n).len() as int) == n,
    decreases n,
{
    if n >= 10 {
        let q = n / 10;
        let r = n % 10;
        lemma_dec_digits(q);
        let s = dec(q);
        let d = (48 + r) as u8;
        assert(dec(n) == s.push(d));
        assert forall|k: int| 0 <= k < dec(n).len() implies crate::pointer::is_digit_byte(#[trigger] dec(n)[k]) by {
            if k < s.len() {
                assert(dec(n)[k] == s[k]);
            }
        }
        if q >= 10 {
            assert(dec(n)[0] == s[0]);
        } else {
            assert(dec(n)[0] == s[0]);
            assert(q >= 1);
        }
        if n <= usize::MAX {
            lemma_sat_value_prefix(s, d, s.len() as int);
            assert(q * 10 + r == n);
            assert(dec(n)[s.len() as int] == d);
            assert(d - 48 == r);
            assert(q * 10 <= usize::MAX);
            let len = dec(n).len() as int;
            assert(len - 1 == s.len());
            assert(crate::pointer::sat_value(dec(n), len) == crate::pointer::sat(crate::pointer::sat(
                crate::pointer::sat_value(dec(n), len - 1) * 10) + (dec(n)[len - 1] - 48)));
        }
    } else {
        assert(crate::pointer::sat_value(dec(n), 0) == 0);
        assert(crate::pointer::sat_value(dec(n), 1) == crate::pointer::sat(crate::pointer::sat(
            crate::pointer::sat_value(dec(n), 0) * 10) + (dec(n)[0] - 48)));
    }
}

/// The decimal digits of an index read back, as a pointer token, as that index: they are
/// digits, most significant first, without a leading zero. So the path of an element's
/// patch names that element.
pub proof fn law_dec_index(n: nat)
    requires
        n <= usize::MAX,
    ensures
        crate::pointer::array_index(dec(n)) == Some(n as usize),
        crate::pointer::array_index(idx_path(seq![], n).drop_first()) == Some(n as usize),
{
    lemma_dec_digits(n);
    lemma_digit_run_all(dec(n), 0);
    assert(idx_path(seq![], n).drop_first() =~= dec(n));
}

/// The key of a member as the walk reads it: absent keys read as empty.
pub open spec fn key_or_empty(m: StoreView, id: NodeId) -> Seq<u8> {
    match m.key_of(id) {
        Some(k) => k,
        None => Seq::empty(),
    }
}

/// A move of the walk over the children of two nodes: a child that only the second has,
/// one that only the first has, or a pair.
pub enum Move {
    Add(int),
    Remove(int),
    Both(int, int),
}

/// The path of the element at index `i` below `path`.
pub open spec fn idx_path(path: Seq<u8>, i: nat) -> Seq<u8> {
    path.push(47u8) + dec(i)
}

/// The path of a pair of children: by the first one's key for members, by index for
/// elements.
pub open spec fn both_path(m: StoreView, ta: Tree, path: Seq<u8>, i: int, keyed: bool) -> Seq<u8> {
    if keyed { patch_path(path, Some(key_or_empty(m, ta.kids[i].id))) } else { idx_path(path, i as nat) }
}

/// The path of a removal: by key for members, by the index for elements.
pub open spec fn rem_path(m: StoreView, ta: Tree, path: Seq<u8>, i: int, keyed: bool) -> Seq<u8> {
    if keyed { patch_path(path, Some(key_or_empty(m, ta.kids[i].id))) } else { patch_path(path, Some(dec(i as nat))) }
}

/// The path of an addition: by key for members, `-` (the end) for elements.
pub open spec fn add_path(m: StoreView, tb: Tree, path: Seq<u8>, j: int, keyed: bool) -> Seq<u8> {
    if keyed { patch_path(path, Some(key_or_empty(m, tb.kids[j].id))) } else { patch_path(path, Some(seq![45u8])) }
}

/// The operations that take the value of `ta` to that of `tb`, at `path`: a replacement
/// when the kinds differ, or the numbers or strings do; for arrays and objects, those of
/// the walk over their children.
pub open spec fn diff<E: Fn(u64, u64) -> bool>(m: StoreView, ta: Tree, tb: Tree, path: Seq<u8>, cs: bool, e: E) -> Seq<Step>
    decreases tsz(ta) + tsz(tb), 1nat, 0nat,
{
    let da = m.nodes[ta.id];
    let db = m.nodes[tb.id];
    let k = spec_type_kind(da.ty);
    let replace = seq![(op_replace(), path, Some(tb.id))];
    if k != spec_type_kind(db.ty) {
        replace
    } else if k == NUMBER {
        if da.valueint != db.valueint || !eq_of(e, da.valuedouble, db.valuedouble) { replace } else { Seq::empty() }
    } else if k == STRING {
        if m.valuestring_of(ta.id) != m.valuestring_of(tb.id) { replace } else { Seq::empty() }
    } else if k == ARRAY {
        flat(m, ta, tb, path, arr_moves(ta, tb), false, cs, e)
    } else if k == OBJECT {
        flat(m, ta, tb, path, obj_walk(m, ta, tb, cs, 0, 0), true, cs, e)
    } else {
        Seq::empty()
    }
}

/// The operations of the moves `mvs`, in order.
pub open spec fn flat<E: Fn(u64, u64) -> bool>(m: StoreView, ta: Tree, tb: Tree, path: Seq<u8>, mvs: Seq<Move>, keyed: bool, cs: bool, e: E) -> Seq<Step>
    decreases tsz(ta) + tsz(tb), 0nat, mvs.len(),
{
    if mvs.len() == 0 {
        Seq::empty()
    } else {
        flat(m, ta, tb, path, mvs.drop_last(), keyed, cs, e) + match mvs.last() {
            Move::Add(j) => if 0 <= j < tb.kids.len() {
                seq![(op_add(), add_path(m, tb, path, j, keyed), Some(tb.kids[j].id))]
            } else {
                Seq::empty()
            },
            Move::Remove(i) => seq![(op_remove(), rem_path(m, ta, path, i, keyed), None::<NodeId>)],
            Move::Both(i, j) => if 0 <= i < ta.kids.len() && 0 <= j < tb.kids.len() {
                proof {
                    lemma_kid_smaller(ta, i);
                    lemma_kid_smaller(tb, j);
                }
                diff(m, ta.kids[i], tb.kids[j], both_path(m, ta, path, i, keyed), cs, e)
            } else {
                Seq::empty()
            },
        }
    }
}

/// The walk over two arrays: the pairs, then the elements only one has (every removal at
/// the index where the pairs stopped).
pub open spec fn arr_moves(ta: Tree, tb: Tree) -> Seq<Move> {
    let n = if ta.kids.len() < tb.kids.len() { ta.kids.len() } else { tb.kids.len() };
    Seq::new(n, |k: int| Move::Both(k, k))
        + Seq::new((ta.kids.len() - n) as nat, |k: int| Move::Remove(n as int))
        + Seq::new((tb.kids.len() - n) as nat, |k: int| Move::Add(n + k))
}

/// The walk over the members of two objects from `ta.kids[i]` and `tb.kids[j]` on, in key
/// order: the smaller key moves first, equal keys make a pair.
pub open spec fn obj_walk(m: StoreView, ta: Tree, tb: Tree, cs: bool, i: int, j: int) -> Seq<Move>
    decreases (ta.kids.len() - i) + (tb.kids.len() - j),
{
    if i < 0 || j < 0 || i > ta.kids.len() || j > tb.kids.len() || (i == ta.kids.len() && j == tb.kids.len()) {
        Seq::empty()
    } else if i == ta.kids.len() {
        seq![Move::Add(j)] + obj_walk(m, ta, tb, cs, i, j + 1)
    } else if j == tb.kids.len() {
        seq![Move::Remove(i)] + obj_walk(m, ta, tb, cs, i + 1, j)
    } else {
        let d = key_order(m.key_of(ta.kids[i].id), m.key_of(tb.kids[j].id), cs);
        if d == 0 {
            seq![Move::Both(i, j)] + obj_walk(m, ta, tb, cs, i + 1, j + 1)
        } else if d < 0 {
            seq![Move::Remove(i)] + obj_walk(m, ta, tb, cs, i + 1, j)
        } else {
            seq![Move::Add(j)] + obj_walk(m, ta, tb, cs, i, j + 1)
        }
    }
}

/// `m2` reads the nodes of `t` as `m1` does: the same fields and the same strings.
pub open spec fn reads_same(m1: StoreView, m2: StoreView, t: Tree) -> bool {
    forall|x: NodeId| #[trigger] tree_ids(t).contains(x) ==> m2.nodes[x] == m1.nodes[x]
        && m2.valuestring_of(x) == m1.valuestring_of(x) && m2.key_of(x) == m1.key_of(x)
}

pub proof fn lemma_reads_same_kid(m1: StoreView, m2: StoreView, t: Tree, i: int)
    requires
        reads_same(m1, m2, t),
        0 <= i < t.kids.len(),
    ensures
        reads_same(m1, m2, t.kids[i]),
        m2.key_of(t.kids[i].id) == m1.key_of(t.kids[i].id),
{
    crate::tree::lemma_kids_in_ids(t.kids, i);
    assert(tree_ids(t) == seq![t.id] + crate::tree::forest_ids(t.kids));
    assert forall|x: NodeId| #[trigger] tree_ids(t.kids[i]).contains(x) implies tree_ids(t).contains(x) by {
        assert(crate::tree::forest_ids(t.kids).contains(x));
        let j = choose|j: int| 0 <= j < crate::tree::forest_ids(t.kids).len() && crate::tree::forest_ids(t.kids)[j] == x;
        assert(tree_ids(t)[j + 1] == x);
    }
    assert(tree_ids(t.kids[i])[0] == t.kids[i].id);
    assert(tree_ids(t.kids[i]).contains(t.kids[i].id));
}

/// The indices of the move are below `ib` (first list) and `jb` (second list); a removal
/// from an array reads no child.
pub open spec fn move_below(mv: Move, ib: int, jb: int, keyed: bool) -> bool {
    match mv {
        Move::Add(j) => 0 <= j < jb,
        Move::Remove(i) => keyed ==> 0 <= i < ib,
        Move::Both(i, j) => 0 <= i < ib && 0 <= j < jb,
    }
}

/// The children below `ib` (and `jb`) are the same trees, read the same.
pub open spec fn kids_same(m1: StoreView, m2: StoreView, t1: Tree, t2: Tree, ib: int) -> bool {
    &&& t1.kids.len() == t2.kids.len()
    &&& 0 <= ib <= t1.kids.len()
    &&& forall|k: int| 0 <= k < ib ==> #[trigger] t2.kids[k] == t1.kids[k] && reads_same(m1, m2, t1.kids[k])
}

/// The operations of moves that read only children that did not change are the same.
pub proof fn lemma_flat_frame<E: Fn(u64, u64) -> bool>(
    m1: StoreView, m2: StoreView, ta1: Tree, tb1: Tree, ta2: Tree, tb2: Tree,
    path: Seq<u8>, mvs: Seq<Move>, keyed: bool, cs: bool, e: E, ib: int, jb: int,
)
    requires
        kids_same(m1, m2, ta1, ta2, ib),
        kids_same(m1, m2, tb1, tb2, jb),
        forall|n: int| 0 <= n < mvs.len() ==> move_below(#[trigger] mvs[n], ib, jb, keyed),
    ensures
        flat(m1, ta1, tb1, path, mvs, keyed, cs, e) == flat(m2, ta2, tb2, path, mvs, keyed, cs, e),
    decreases tsz(ta1) + tsz(tb1), 0nat, mvs.len(),
{
    if mvs.len() > 0 {
        let rest = mvs.drop_last();
        assert forall|n: int| 0 <= n < rest.len() implies move_below(#[trigger] rest[n], ib, jb, keyed) by {
            assert(rest[n] == mvs[n]);
        }
        lemma_flat_frame(m1, m2, ta1, tb1, ta2, tb2, path, rest, keyed, cs, e, ib, jb);
        assert(move_below(mvs[mvs.len() - 1], ib, jb, keyed));
        match mvs.last() {
            Move::Add(j) => {
                if 0 <= j < tb1.kids.len() {
                    assert(tb2.kids[j] == tb1.kids[j]);
                    lemma_reads_same_root(m1, m2, tb1.kids[j]);
                }
            },
            Move::Remove(i) => {
                if keyed && 0 <= i {
                    assert(ta2.kids[i] == ta1.kids[i]);
                    lemma_reads_same_root(m1, m2, ta1.kids[i]);
                }
            },
            Move::Both(i, j) => {
                if 0 <= i < ta1.kids.len() && 0 <= j < tb1.kids.len() {
                    assert(ta2.kids[i] == ta1.kids[i]);
                    assert(tb2.kids[j] == tb1.kids[j]);
                    lemma_reads_same_root(m1, m2, ta1.kids[i]);
                    lemma_kid_smaller(ta1, i);
                    lemma_kid_smaller(tb1, j);
                    lemma_diff_frame(m1, m2, ta1.kids[i], tb1.kids[j], both_path(m1, ta1, path, i, keyed), cs, e);
                }
            },
        }
    }
}

proof fn lemma_reads_same_root(m1: StoreView, m2: StoreView, t: Tree)
    requires
        reads_same(m1, m2, t),
    ensures
        m2.key_of(t.id) == m1.key_of(t.id),
        m2.valuestring_of(t.id) == m1.valuestring_of(t.id),
        m2.nodes[t.id] == m1.nodes[t.id],
{
    assert(tree_ids(t)[0] == t.id);
    assert(tree_ids(t).contains(t.id));
}

/// The walk reads only the number of children and their keys.
pub proof fn lemma_walk_frame(m1: StoreView, m2: StoreView, ta1: Tree, tb1: Tree, ta2: Tree, tb2: Tree, cs: bool, i: int, j: int)
    requires
        ta2.kids.len() == ta1.kids.len(),
        tb2.kids.len() == tb1.kids.len(),
        forall|k: int| 0 <= k < ta1.kids.len() ==> #[trigger] m2.key_of(ta2.kids[k].id) == m1.key_of(ta1.kids[k].id),
        forall|k: int| 0 <= k < tb1.kids.len() ==> #[trigger] m2.key_of(tb2.kids[k].id) == m1.key_of(tb1.kids[k].id),
    ensures
        obj_walk(m1, ta1, tb1, cs, i, j) == obj_walk(m2, ta2, tb2, cs, i, j),
    decreases (ta1.kids.len() - i) + (tb1.kids.len() - j),
{
    if i < 0 || j < 0 || i > ta1.kids.len() || j > tb1.kids.len() || (i == ta1.kids.len() && j == tb1.kids.len()) {
    } else {
        if i < ta1.kids.len() && j < tb1.kids.len() {
            lemma_walk_frame(m1, m2, ta1, tb1, ta2, tb2, cs, i + 1, j + 1);
        }
        if i < ta1.kids.len() {
            lemma_walk_frame(m1, m2, ta1, tb1, ta2, tb2, cs, i + 1, j);
        }
        if j < tb1.kids.len() {
            lemma_walk_frame(m1, m2, ta1, tb1, ta2, tb2, cs, i, j + 1);
        }
    }
}

/// The operations read only the nodes of the two trees and their strings.
pub proof fn lemma_diff_frame<E: Fn(u64, u64) -> bool>(m1: StoreView, m2: StoreView, ta: Tree, tb: Tree, path: Seq<u8>, cs: bool, e: E)
    requires
        reads_same(m1, m2, ta),
        reads_same(m1, m2, tb),
    ensures
        diff(m1, ta, tb, path, cs, e) == diff(m2, ta, tb, path, cs, e),
    decreases tsz(ta) + tsz(tb), 1nat, 0nat,
{
    lemma_reads_same_root(m1, m2, ta);
    lemma_reads_same_root(m1, m2, tb);
    assert(tree_ids(ta).contains(ta.id)) by { assert(tree_ids(ta)[0] == ta.id); }
    assert(tree_ids(tb).contains(tb.id)) by { assert(tree_ids(tb)[0] == tb.id); }
    assert forall|k: int| 0 <= k < ta.kids.len() implies #[trigger] ta.kids[k] == ta.kids[k] && reads_same(m1, m2, ta.kids[k]) by {
        lemma_reads_same_kid(m1, m2, ta, k);
    }
    assert forall|k: int| 0 <= k < tb.kids.len() implies #[trigger] tb.kids[k] == tb.kids[k] && reads_same(m1, m2, tb.kids[k]) by {
        lemma_reads_same_kid(m1, m2, tb, k);
    }
    assert forall|k: int| 0 <= k < ta.kids.len() implies #[trigger] m2.key_of(ta.kids[k].id) == m1.key_of(ta.kids[k].id) by {
        lemma_reads_same_kid(m1, m2, ta, k);
    }
    assert forall|k: int| 0 <= k < tb.kids.len() implies #[trigger] m2.key_of(tb.kids[k].id) == m1.key_of(tb.kids[k].id) by {
        lemma_reads_same_kid(m1, m2, tb, k);
    }
    let am = arr_moves(ta, tb);
    assert forall|n: int| 0 <= n < am.len() implies move_below(#[trigger] am[n], ta.kids.len() as int, tb.kids.len() as int, false) by {}
    lemma_flat_frame(m1, m2, ta, tb, ta, tb, path, am, false, cs, e, ta.kids.len() as int, tb.kids.len() as int);
    lemma_walk_frame(m1, m2, ta, tb, ta, tb, cs, 0, 0);
    let w = obj_walk(m1, ta, tb, cs, 0, 0);
    lemma_walk_below(m1, ta, tb, cs, 0, 0);
    lemma_flat_frame(m1, m2, ta, tb, ta, tb, path, w, true, cs, e, ta.kids.len() as int, tb.kids.len() as int);
}

/// Every move of the walk stays within the children.
pub proof fn lemma_walk_below(m: StoreView, ta: Tree, tb: Tree, cs: bool, i: int, j: int)
    ensures
        forall|n: int| 0 <= n < obj_walk(m, ta, tb, cs, i, j).len()
            ==> move_below(#[trigger] obj_walk(m, ta, tb, cs, i, j)[n], ta.kids.len() as int, tb.kids.len() as int, true),
    decreases (ta.kids.len() - i) + (tb.kids.len() - j),
{
    if i < 0 || j < 0 || i > ta.kids.len() || j > tb.kids.len() || (i == ta.kids.len() && j == tb.kids.len()) {
    } else {
        if i < ta.kids.len() && j < tb.kids.len() {
            lemma_walk_below(m, ta, tb, cs, i + 1, j + 1);
        }
        if i < ta.kids.len() {
            lemma_walk_below(m, ta, tb, cs, i + 1, j);
        }
        if j < tb.kids.len() {
            lemma_walk_below(m, ta, tb, cs, i, j + 1);
        }
        let w = obj_walk(m, ta, tb, cs, i, j);
        assert forall|n: int| 0 <= n < w.len() implies move_below(#[trigger] w[n], ta.kids.len() as int, tb.kids.len() as int, true) by {
            if n > 0 {
                if i == ta.kids.len() {
                    assert(w[n] == obj_walk(m, ta, tb, cs, i, j + 1)[n - 1]);
                } else if j == tb.kids.len() {
                    assert(w[n] == obj_walk(m, ta, tb, cs, i + 1, j)[n - 1]);
                } else {
                    let d = key_order(m.key_of(ta.kids[i].id), m.key_of(tb.kids[j].id), cs);
                    if d == 0 {
                        assert(w[n] == obj_walk(m, ta, tb, cs, i + 1, j + 1)[n - 1]);
                    } else if d < 0 {
                        assert(w[n] == obj_walk(m, ta, tb, cs, i + 1, j)[n - 1]);
                    } else {
                        assert(w[n] == obj_walk(m, ta, tb, cs, i, j + 1)[n - 1]);
                    }
                }
            }
        }
    }
}

/// The fields of a node but its `prev` and `next` links, and its `child` link.
pub open spec fn same_but_sibs(a: crate::store::NodeData, b: crate::store::NodeData) -> bool {
    crate::equal::same_data(a, b) && a.child == b.child
}

/// Every string of `m1` is in `m2`, unchanged.
pub open spec fn strs_grow(m1: StoreView, m2: StoreView) -> bool {
    forall|k: crate::store::StrId| #[trigger] m1.strings.contains_key(k) ==> m2.strings.contains_key(k) && m2.strings[k] == m1.strings[k]
}

/// Appending `q` to the list of `p` changes only the links of `p`'s list and of `q`.
pub proof fn lemma_appended_frame(mid: StoreView, p: NodeId, q: NodeId)
    requires
        crate::dom::listed(mid, p),
        mid.live(q),
        p != q,
        !mid.children(p).contains(q),
        !mid.children(p).contains(p),
        mid.nodes[q].next is None,
    ensures
        forall|x: NodeId| x != p && x != q && !mid.children(p).contains(x)
            ==> #[trigger] crate::dom::appended(mid, p, q).nodes[x] == mid.nodes[x],
        forall|x: NodeId| #[trigger] mid.children(p).contains(x) ==> same_but_sibs(crate::dom::appended(mid, p, q).nodes[x], mid.nodes[x]),
        same_but_sibs(crate::dom::appended(mid, p, q).nodes[q], mid.nodes[q]),
        crate::dom::appended(mid, p, q).nodes[q].next is None,
        crate::equal::same_data(crate::dom::appended(mid, p, q).nodes[p], mid.nodes[p]),
        crate::dom::appended(mid, p, q).nodes[p].next == mid.nodes[p].next,
        crate::dom::appended(mid, p, q).nodes[p].prev == mid.nodes[p].prev,
        crate::dom::appended(mid, p, q).strings == mid.strings,
        crate::dom::appended(mid, p, q).fail_allocs == mid.fail_allocs,
        crate::dom::appended(mid, p, q).str_slots == mid.str_slots,
        crate::dom::appended(mid, p, q).nodes.dom() == mid.nodes.dom(),
{
    let s = mid.children(p);
    if s.len() > 0 {
        assert(s.contains(s[0]));
        assert(s.contains(s.last()));
    }
}

/// Composing a patch onto the list of `patches` (a list in the store's shape) appended the
/// fresh object `q`, reading as the patch; only the links of the list changed besides.
#[verifier::spinoff_prover]
#[verifier::rlimit(40)]
pub proof fn lemma_composed(before: StoreView, after: StoreView, patches: NodeId, op: Seq<u8>, path: Seq<u8>, value: Option<NodeId>) -> (q: NodeId)
    requires
        crate::patch::composed_as(before, after, patches, op, path, value),
        crate::dom::listed(before, patches),
        !before.children(patches).contains(patches),
    ensures
        !before.live(q),
        after.live(q),
        q != patches,
        after.children(patches) == before.children(patches).push(q),
        crate::dom::listed(after, patches),
        !after.children(patches).contains(patches),
        crate::patch::patch_is(after, q, op, path, value),
        forall|x: NodeId| #[trigger] crate::patch::patch_feet(after, q).contains(x) ==> !before.live(x) && x != q,
        forall|x: NodeId| #[trigger] before.live(x) ==> after.live(x),
        forall|x: NodeId| before.live(x) && x != patches && !before.children(patches).contains(x)
            ==> #[trigger] after.nodes[x] == before.nodes[x],
        forall|x: NodeId| #[trigger] before.children(patches).contains(x) ==> same_but_sibs(after.nodes[x], before.nodes[x]),
        crate::equal::same_data(after.nodes[patches], before.nodes[patches]),
        after.nodes[patches].next == before.nodes[patches].next,
        after.nodes[patches].prev == before.nodes[patches].prev,
        strs_grow(before, after),
        after.fail_allocs == before.fail_allocs,
        after.str_slots >= before.str_slots,
{
    let (q, mid) = choose|q: NodeId, mid: StoreView| #[trigger] crate::patch::composed_via(before, after, patches, op, path, value, q, mid);
    let s = before.children(patches);
    lemma_listed_kept(before, mid, patches);
    assert(!s.contains(q)) by {
        if s.contains(q) {
            let i = choose|i: int| 0 <= i < s.len() && s[i] == q;
            assert(before.live(s[i]));
        }
    }
    crate::laws::law_append_last(mid, patches, q);
    lemma_appended_frame(mid, patches, q);
    lemma_feet_kept(before, mid, after, patches, q, op, path, value);
    q
}

/// The list of `p` reads the same in a store that grew.
proof fn lemma_listed_kept(before: StoreView, mid: StoreView, p: NodeId)
    requires
        crate::dom::listed(before, p),
        crate::patch::grows(before, mid),
    ensures
        crate::dom::listed(mid, p),
        mid.children(p) == before.children(p),
{
    let s = before.children(p);
    assert forall|i: int| 0 <= i < s.len() implies #[trigger] mid.nodes[s[i]] == before.nodes[s[i]] by {
        assert(before.live(s[i]));
    }
    lemma_listed_frame(before, mid, p);
}

/// The list of `p` reads the same where `p` and its children are kept.
proof fn lemma_listed_frame(before: StoreView, mid: StoreView, p: NodeId)
    requires
        crate::dom::listed(before, p),
        mid.nodes[p] == before.nodes[p],
        mid.live(p),
        forall|i: int| 0 <= i < before.children(p).len() ==> #[trigger] mid.nodes[before.children(p)[i]] == before.nodes[before.children(p)[i]]
            && mid.live(before.children(p)[i]),
    ensures
        crate::dom::listed(mid, p),
        mid.children(p) == before.children(p),
{
    let s = before.children(p);
    assert forall|i: int| 0 <= i < s.len() implies mid.live(#[trigger] s[i]) && mid.nodes[s[i]] == before.nodes[s[i]] by {
        assert(mid.nodes[before.children(p)[i]] == before.nodes[before.children(p)[i]]);
    }
    crate::tree::lemma_chain_is(before, before.nodes[p].child, s);
    assert(mid.is_chain(mid.nodes[p].child, s));
    crate::tree::lemma_chain_is(mid, mid.nodes[p].child, s);
}

/// The members of the fresh patch object are untouched by appending it.
proof fn lemma_feet_kept(before: StoreView, mid: StoreView, after: StoreView, patches: NodeId, q: NodeId, op: Seq<u8>, path: Seq<u8>, value: Option<NodeId>)
    requires
        crate::patch::compose_mid(before, mid, q, op, path, value),
        after == crate::dom::appended(mid, patches, q),
        crate::dom::listed(before, patches),
        mid.children(patches) == before.children(patches),
        mid.live(q),
        forall|x: NodeId| x != patches && x != q && !mid.children(patches).contains(x)
            ==> #[trigger] after.nodes[x] == mid.nodes[x],
        same_but_sibs(after.nodes[q], mid.nodes[q]),
        after.strings == mid.strings,
    ensures
        crate::patch::patch_is(after, q, op, path, value),
        crate::patch::patch_feet(after, q) == crate::patch::patch_feet(mid, q),
{
    let s = before.children(patches);
    let o = mid.nodes[q].child.unwrap();
    let r = mid.nodes[o].next.unwrap();
    assert forall|x: NodeId| #[trigger] crate::patch::patch_feet(mid, q).contains(x) implies after.nodes[x] == mid.nodes[x] by {
        assert(!before.live(x));
        assert(before.live(patches));
        assert(!s.contains(x)) by {
            if s.contains(x) {
                let i = choose|i: int| 0 <= i < s.len() && s[i] == x;
                assert(before.live(s[i]));
            }
        }
    }
    assert(crate::patch::patch_feet(mid, q).contains(o));
    assert(crate::patch::patch_feet(mid, q).contains(r));
    if let Some(d) = mid.nodes[r].next {
        assert(crate::patch::patch_feet(mid, q).contains(d));
        let v = value.unwrap();
        reveal(crate::patch::value_copied);
        assert(crate::patch::value_copied(mid, d, v));
        assert(after.live(v));
        assert(crate::equal::same_data(after.nodes[v], mid.nodes[v]));
        assert(crate::patch::value_copied(after, d, v));
    }
    assert(crate::patch::patch_feet(after, q) =~= crate::patch::patch_feet(mid, q));
}

/// What generating patches needs: the two documents are ready for the comparison, with
/// live strings, and no node in both; the list of `patches` is a list in the store's shape
/// apart from them; allocation does not fail.
pub open spec fn diff_ready(m: StoreView, ta: Tree, tb: Tree, patches: NodeId) -> bool {
    &&& cj_ready(m, ta)
    &&& cj_ready(m, tb)
    &&& disjoint(ta, tb)
    &&& strs_live(m, ta)
    &&& strs_live(m, tb)
    &&& listed(m, patches)
    &&& !m.children(patches).contains(patches)
    &&& !tree_ids(ta).contains(patches)
    &&& !tree_ids(tb).contains(patches)
    &&& forall|x: NodeId| #[trigger] m.children(patches).contains(x) ==> !tree_ids(ta).contains(x) && !tree_ids(tb).contains(x)
    &&& !m.fail_allocs
}

/// How generating patches took `m0` to `m1`: the documents are the trees `ta1`, `tb1` over
/// the same nodes (the members of objects sorted: only links changed); the list of
/// `patches` grew by the fresh objects `qs`, whose members are fresh too; no other node
/// that was live changed, and every string stayed.
pub open spec fn diff_post(m0: StoreView, m1: StoreView, ta: Tree, tb: Tree, ta1: Tree, tb1: Tree, patches: NodeId, qs: Seq<NodeId>) -> bool {
    &&& ta1.id == ta.id
    &&& tb1.id == tb.id
    &&& forall|x: NodeId| #[trigger] tree_ids(ta1).contains(x) == tree_ids(ta).contains(x)
    &&& forall|x: NodeId| #[trigger] tree_ids(tb1).contains(x) == tree_ids(tb).contains(x)
    &&& diff_ready(m1, ta1, tb1, patches)
    &&& forall|x: NodeId| #[trigger] m0.live(x) ==> m1.live(x)
    &&& forall|x: NodeId| m0.live(x) && !tree_ids(ta).contains(x) && !tree_ids(tb).contains(x) && x != patches
        && !m0.children(patches).contains(x) ==> #[trigger] m1.nodes[x] == m0.nodes[x]
    &&& forall|x: NodeId| #[trigger] m0.children(patches).contains(x) ==> same_but_sibs(m1.nodes[x], m0.nodes[x])
    &&& forall|x: NodeId| (tree_ids(ta).contains(x) || tree_ids(tb).contains(x)) ==> #[trigger] same_data(m1.nodes[x], m0.nodes[x])
    &&& same_data(m1.nodes[patches], m0.nodes[patches])
    &&& m1.nodes[patches].next == m0.nodes[patches].next
    &&& m1.nodes[patches].prev == m0.nodes[patches].prev
    &&& m1.nodes[ta.id].next == m0.nodes[ta.id].next
    &&& m1.nodes[ta.id].prev == m0.nodes[ta.id].prev
    &&& m1.nodes[tb.id].next == m0.nodes[tb.id].next
    &&& m1.nodes[tb.id].prev == m0.nodes[tb.id].prev
    &&& strs_grow(m0, m1)
    &&& m1.str_slots >= m0.str_slots
    &&& m1.children(patches) == m0.children(patches) + qs
    &&& forall|k: int| 0 <= k < qs.len() ==> !m0.live(#[trigger] qs[k])
    &&& forall|k: int, x: NodeId| 0 <= k < qs.len() && #[trigger] patch_feet(m1, qs[k]).contains(x) ==> !m0.live(x)
    &&& forall|k1: int, k2: int| 0 <= k1 < qs.len() && 0 <= k2 < qs.len() ==> !#[trigger] patch_feet(m1, qs[k1]).contains(#[trigger] qs[k2])
}

/// `diff_post` but for what it says of the members of the new patch objects: the trees
/// became `ta1`, `tb1` over the same nodes, only links changed in them; the list of
/// `patches` grew by the fresh nodes `qs`; no other node that was live changed.
pub open spec fn base_post(m0: StoreView, m1: StoreView, ta: Tree, tb: Tree, ta1: Tree, tb1: Tree, patches: NodeId, qs: Seq<NodeId>) -> bool {
    &&& ta1.id == ta.id
    &&& tb1.id == tb.id
    &&& forall|x: NodeId| #[trigger] tree_ids(ta1).contains(x) == tree_ids(ta).contains(x)
    &&& forall|x: NodeId| #[trigger] tree_ids(tb1).contains(x) == tree_ids(tb).contains(x)
    &&& diff_ready(m1, ta1, tb1, patches)
    &&& forall|x: NodeId| #[trigger] m0.live(x) ==> m1.live(x)
    &&& forall|x: NodeId| m0.live(x) && !tree_ids(ta).contains(x) && !tree_ids(tb).contains(x) && x != patches
        && !m0.children(patches).contains(x) ==> #[trigger] m1.nodes[x] == m0.nodes[x]
    &&& forall|x: NodeId| #[trigger] m0.children(patches).contains(x) ==> same_but_sibs(m1.nodes[x], m0.nodes[x])
    &&& forall|x: NodeId| (tree_ids(ta).contains(x) || tree_ids(tb).contains(x)) ==> #[trigger] same_data(m1.nodes[x], m0.nodes[x])
    &&& same_data(m1.nodes[patches], m0.nodes[patches])
    &&& m1.nodes[patches].next == m0.nodes[patches].next
    &&& m1.nodes[patches].prev == m0.nodes[patches].prev
    &&& m1.nodes[ta.id].next == m0.nodes[ta.id].next
    &&& m1.nodes[ta.id].prev == m0.nodes[ta.id].prev
    &&& m1.nodes[tb.id].next == m0.nodes[tb.id].next
    &&& m1.nodes[tb.id].prev == m0.nodes[tb.id].prev
    &&& strs_grow(m0, m1)
    &&& m1.str_slots >= m0.str_slots
    &&& m1.children(patches) == m0.children(patches) + qs
    &&& forall|k: int| 0 <= k < qs.len() ==> !m0.live(#[trigger] qs[k])
}


/// The patch objects `qs` read as the operations `steps`, one for one.
pub open spec fn patches_are(m: StoreView, qs: Seq<NodeId>, steps: Seq<Step>) -> bool {
    &&& qs.len() == steps.len()
    &&& forall|k: int| 0 <= k < qs.len() ==> #[trigger] patch_is(m, qs[k], steps[k].0, steps[k].1, steps[k].2)
}

/// A patch object reads the same where its node (but for its links), its members and the
/// strings are kept.
pub proof fn lemma_patch_frame(m1: StoreView, m2: StoreView, q: NodeId, op: Seq<u8>, path: Seq<u8>, value: Option<NodeId>)
    requires
        patch_is(m1, q, op, path, value),
        m2.live(q),
        same_but_sibs(m2.nodes[q], m1.nodes[q]),
        forall|x: NodeId| #[trigger] patch_feet(m1, q).contains(x) ==> m2.nodes[x] == m1.nodes[x] && m2.live(x),
        strs_grow(m1, m2),
        value is Some && m1.live(value.unwrap()) ==> m2.live(value.unwrap())
            && crate::equal::same_data(m2.nodes[value.unwrap()], m1.nodes[value.unwrap()]),
    ensures
        patch_is(m2, q, op, path, value),
        patch_feet(m2, q) == patch_feet(m1, q),
{
    let o = m1.nodes[q].child.unwrap();
    let r = m1.nodes[o].next.unwrap();
    assert(patch_feet(m1, q).contains(o));
    assert(patch_feet(m1, q).contains(r));
    if let Some(d) = m1.nodes[r].next {
        assert(patch_feet(m1, q).contains(d));
        let v = value.unwrap();
        reveal(crate::patch::value_copied);
        assert(crate::patch::value_copied(m1, d, v));
        if let Some(sd) = m1.nodes[d].valuestring {
            assert(m1.strings.contains_key(sd));
        }
        if let Some(sv) = m1.nodes[v].valuestring {
            assert(m1.strings.contains_key(sv));
        }
        assert(crate::patch::value_copied(m2, d, v));
    }
    assert(spec_type_kind(m2.nodes[q].ty) == spec_type_kind(m1.nodes[q].ty));
    assert(patch_feet(m2, q) =~= patch_feet(m1, q));
}

/// Nothing done yet.
pub proof fn lemma_dpost_refl(m: StoreView, ta: Tree, tb: Tree, patches: NodeId)
    requires
        diff_ready(m, ta, tb, patches),
    ensures
        diff_post(m, m, ta, tb, ta, tb, patches, Seq::empty()),
{
    assert(m.children(patches) + Seq::<NodeId>::empty() =~= m.children(patches));
}

/// The nodes of a ready tree are live.
proof fn lemma_ids_live(m: StoreView, t: Tree)
    requires
        cj_ready(m, t),
    ensures
        forall|x: NodeId| #[trigger] tree_ids(t).contains(x) ==> m.live(x),
{
    assert forall|x: NodeId| #[trigger] tree_ids(t).contains(x) implies m.live(x) by {
        crate::utils::lemma_tree_ids_live(m, t, x);
    }
}

/// The nodes of the list of `patches` are live.
proof fn lemma_list_live(m: StoreView, patches: NodeId)
    requires
        listed(m, patches),
    ensures
        forall|x: NodeId| #[trigger] m.children(patches).contains(x) ==> m.live(x),
{
    let c = m.children(patches);
    crate::tree::lemma_chain_is(m, m.nodes[patches].child, c);
    assert forall|x: NodeId| #[trigger] c.contains(x) implies m.live(x) by {
        let i = choose|i: int| 0 <= i < c.len() && c[i] == x;
    }
}

/// The members of a patch object are live.
proof fn lemma_feet_live(m: StoreView, q: NodeId, op: Seq<u8>, path: Seq<u8>, value: Option<NodeId>)
    requires
        patch_is(m, q, op, path, value),
    ensures
        forall|x: NodeId| #[trigger] patch_feet(m, q).contains(x) ==> m.live(x),
{
    let o = m.nodes[q].child.unwrap();
    let r = m.nodes[o].next.unwrap();
    if let Some(d) = m.nodes[r].next {
        assert(patch_feet(m, q) == set![o, r, d]);
    } else {
        assert(patch_feet(m, q) == set![o, r]);
    }
}

/// The patches of a first step read the same after a second.
#[verifier::spinoff_prover]
#[verifier::rlimit(40)]
proof fn lemma_trans_patches(
    m0: StoreView, m1: StoreView, m2: StoreView, ta: Tree, tb: Tree, ta1: Tree, tb1: Tree, ta2: Tree, tb2: Tree,
    patches: NodeId, qs1: Seq<NodeId>, qs2: Seq<NodeId>, st1: Seq<Step>,
)
    requires
        diff_ready(m0, ta, tb, patches),
        diff_post(m0, m1, ta, tb, ta1, tb1, patches, qs1),
        diff_post(m1, m2, ta1, tb1, ta2, tb2, patches, qs2),
        patches_are(m1, qs1, st1),
    ensures
        patches_are(m2, qs1, st1),
        forall|k: int| 0 <= k < qs1.len() ==> #[trigger] patch_feet(m2, qs1[k]) == patch_feet(m1, qs1[k]),
{
    lemma_ids_live(m0, ta);
    lemma_ids_live(m0, tb);
    lemma_list_live(m0, patches);
    let c0 = m0.children(patches);
    let c1 = m1.children(patches);
    assert forall|k: int| 0 <= k < qs1.len() implies #[trigger] patch_is(m2, qs1[k], st1[k].0, st1[k].1, st1[k].2) by {
        lemma_trans_one(m0, m1, m2, ta, tb, ta1, tb1, ta2, tb2, patches, qs1, qs2, st1, k);
    }
    assert forall|k: int| 0 <= k < qs1.len() implies #[trigger] patch_feet(m2, qs1[k]) == patch_feet(m1, qs1[k]) by {
        lemma_trans_one(m0, m1, m2, ta, tb, ta1, tb1, ta2, tb2, patches, qs1, qs2, st1, k);
    }
}

#[verifier::spinoff_prover]
#[verifier::rlimit(40)]
proof fn lemma_trans_one(
    m0: StoreView, m1: StoreView, m2: StoreView, ta: Tree, tb: Tree, ta1: Tree, tb1: Tree, ta2: Tree, tb2: Tree,
    patches: NodeId, qs1: Seq<NodeId>, qs2: Seq<NodeId>, st1: Seq<Step>, k: int,
)
    requires
        diff_ready(m0, ta, tb, patches),
        diff_post(m0, m1, ta, tb, ta1, tb1, patches, qs1),
        diff_post(m1, m2, ta1, tb1, ta2, tb2, patches, qs2),
        patches_are(m1, qs1, st1),
        0 <= k < qs1.len(),
        forall|x: NodeId| #[trigger] tree_ids(ta).contains(x) ==> m0.live(x),
        forall|x: NodeId| #[trigger] tree_ids(tb).contains(x) ==> m0.live(x),
        forall|x: NodeId| #[trigger] m0.children(patches).contains(x) ==> m0.live(x),
    ensures
        patch_is(m2, qs1[k], st1[k].0, st1[k].1, st1[k].2),
        patch_feet(m2, qs1[k]) == patch_feet(m1, qs1[k]),
{
    let c0 = m0.children(patches);
    let c1 = m1.children(patches);
    let q = qs1[k];
    assert(patch_is(m1, q, st1[k].0, st1[k].1, st1[k].2));
    lemma_feet_live(m1, q, st1[k].0, st1[k].1, st1[k].2);
    assert(c1[c0.len() + k] == q);
    assert(c1.contains(q));
    assert forall|x: NodeId| #[trigger] patch_feet(m1, q).contains(x) implies m2.nodes[x] == m1.nodes[x] && m2.live(x) by {
        assert(!m0.live(x));
        assert(!tree_ids(ta1).contains(x));
        assert(!tree_ids(tb1).contains(x));
        assert(!c1.contains(x)) by {
            if c1.contains(x) {
                let i = choose|i: int| 0 <= i < c1.len() && c1[i] == x;
                if i < c0.len() {
                    assert(c0[i] == x);
                    assert(c0.contains(x));
                } else {
                    assert(qs1[i - c0.len()] == x);
                }
            }
        }
    }
    if let Some(v) = st1[k].2 {
        if m1.live(v) {
            lemma_data_kept(m0, m1, m2, ta, tb, ta1, tb1, ta2, tb2, patches, qs2, v);
        }
    }
    lemma_patch_frame(m1, m2, q, st1[k].0, st1[k].1, st1[k].2);
}

/// A step keeps every node that was live, with its data (only links may change).
proof fn lemma_data_kept(
    m0: StoreView, m1: StoreView, m2: StoreView, ta: Tree, tb: Tree, ta1: Tree, tb1: Tree, ta2: Tree, tb2: Tree,
    patches: NodeId, qs2: Seq<NodeId>, v: NodeId,
)
    requires
        diff_post(m1, m2, ta1, tb1, ta2, tb2, patches, qs2),
        m1.live(v),
    ensures
        m2.live(v),
        crate::equal::same_data(m2.nodes[v], m1.nodes[v]),
{
    if tree_ids(ta1).contains(v) || tree_ids(tb1).contains(v) {
    } else if v == patches {
    } else if m1.children(patches).contains(v) {
        assert(same_but_sibs(m2.nodes[v], m1.nodes[v]));
    } else {
        assert(m2.nodes[v] == m1.nodes[v]);
    }
}

/// Two steps make one.
#[verifier::spinoff_prover]
#[verifier::rlimit(100)]
pub proof fn lemma_dpost_trans(
    m0: StoreView, m1: StoreView, m2: StoreView, ta: Tree, tb: Tree, ta1: Tree, tb1: Tree, ta2: Tree, tb2: Tree,
    patches: NodeId, qs1: Seq<NodeId>, qs2: Seq<NodeId>, st1: Seq<Step>, st2: Seq<Step>,
)
    requires
        diff_ready(m0, ta, tb, patches),
        diff_post(m0, m1, ta, tb, ta1, tb1, patches, qs1),
        diff_post(m1, m2, ta1, tb1, ta2, tb2, patches, qs2),
        patches_are(m1, qs1, st1),
        patches_are(m2, qs2, st2),
    ensures
        diff_post(m0, m2, ta, tb, ta2, tb2, patches, qs1 + qs2),
        patches_are(m2, qs1 + qs2, st1 + st2),
{
    lemma_trans_patches(m0, m1, m2, ta, tb, ta1, tb1, ta2, tb2, patches, qs1, qs2, st1);
    lemma_ids_live(m0, ta);
    lemma_ids_live(m0, tb);
    lemma_list_live(m0, patches);
    lemma_list_live(m1, patches);
    let c0 = m0.children(patches);
    let c1 = m1.children(patches);
    let qs = qs1 + qs2;
    let st = st1 + st2;
    assert forall|k: int| 0 <= k < qs.len() implies #[trigger] patch_is(m2, qs[k], st[k].0, st[k].1, st[k].2) by {
        if k < qs1.len() {
            assert(qs[k] == qs1[k]);
            assert(st[k] == st1[k]);
        } else {
            assert(qs[k] == qs2[k - qs1.len()]);
            assert(st[k] == st2[k - qs1.len()]);
        }
    }
    assert(m2.children(patches) =~= c0 + qs);
    assert forall|k: int, x: NodeId| 0 <= k < qs.len() && #[trigger] patch_feet(m2, qs[k]).contains(x) implies !m0.live(x) by {
        if k < qs1.len() {
            assert(qs[k] == qs1[k]);
        } else {
            assert(qs[k] == qs2[k - qs1.len()]);
        }
    }
    assert forall|k1: int, k2: int| 0 <= k1 < qs.len() && 0 <= k2 < qs.len() implies !#[trigger] patch_feet(m2, qs[k1]).contains(#[trigger] qs[k2]) by {
        if k1 < qs1.len() {
            assert(qs[k1] == qs1[k1]);
            if k2 < qs1.len() {
                assert(qs[k2] == qs1[k2]);
            } else {
                assert(qs[k2] == qs2[k2 - qs1.len()]);
                lemma_feet_live(m1, qs1[k1], st1[k1].0, st1[k1].1, st1[k1].2);
            }
        } else {
            assert(qs[k1] == qs2[k1 - qs1.len()]);
            if k2 < qs1.len() {
                assert(qs[k2] == qs1[k2]);
                assert(c1[c0.len() + k2] == qs1[k2]);
                assert(c1.contains(qs1[k2]));
            } else {
                assert(qs[k2] == qs2[k2 - qs1.len()]);
            }
        }
    }
    assert forall|x: NodeId| m0.live(x) && !tree_ids(ta).contains(x) && !tree_ids(tb).contains(x) && x != patches
        && !c0.contains(x) implies #[trigger] m2.nodes[x] == m0.nodes[x] by {
        assert(!c1.contains(x)) by {
            if c1.contains(x) {
                let i = choose|i: int| 0 <= i < c1.len() && c1[i] == x;
                if i < c0.len() {
                    assert(c0[i] == x);
                } else {
                    assert(qs1[i - c0.len()] == x);
                }
            }
        }
    }
    assert forall|x: NodeId| #[trigger] c0.contains(x) implies same_but_sibs(m2.nodes[x], m0.nodes[x]) by {
        let i = choose|i: int| 0 <= i < c0.len() && c0[i] == x;
        assert(c1[i] == x);
        assert(c1.contains(x));
    }
    assert forall|k: int| 0 <= k < qs.len() implies !m0.live(#[trigger] qs[k]) by {
        if k < qs1.len() {
            assert(qs[k] == qs1[k]);
        } else {
            assert(qs[k] == qs2[k - qs1.len()]);
        }
    }
    assert forall|x: NodeId| (tree_ids(ta).contains(x) || tree_ids(tb).contains(x)) implies #[trigger] same_data(m2.nodes[x], m0.nodes[x]) by {
        assert(tree_ids(ta1).contains(x) || tree_ids(tb1).contains(x));
        assert(same_data(m2.nodes[x], m1.nodes[x]));
        assert(same_data(m1.nodes[x], m0.nodes[x]));
    }
}

/// What a lifted step knows: a step on `ta.kids[i]` and `tb.kids[j]`.
pub open spec fn lift_pre(m1: StoreView, m2: StoreView, ta: Tree, tb: Tree, i: int, j: int, x1: Tree, y1: Tree, patches: NodeId, qs: Seq<NodeId>) -> bool {
    &&& diff_ready(m1, ta, tb, patches)
    &&& 0 <= i < ta.kids.len()
    &&& 0 <= j < tb.kids.len()
    &&& base_post(m1, m2, ta.kids[i], tb.kids[j], x1, y1, patches, qs)
}

/// The nodes of the pair are nodes of their parents' trees, and the other nodes of the two
/// trees are untouched.
proof fn lemma_lift_nodes(m1: StoreView, m2: StoreView, ta: Tree, tb: Tree, i: int, j: int, x1: Tree, y1: Tree, patches: NodeId, qs: Seq<NodeId>)
    requires
        lift_pre(m1, m2, ta, tb, i, j, x1, y1, patches, qs),
    ensures
        forall|x: NodeId| #[trigger] tree_ids(ta.kids[i]).contains(x) ==> tree_ids(ta).contains(x) && !tree_ids(tb).contains(x),
        forall|x: NodeId| #[trigger] tree_ids(tb.kids[j]).contains(x) ==> tree_ids(tb).contains(x) && !tree_ids(ta).contains(x),
        forall|x: NodeId| (tree_ids(ta).contains(x) || tree_ids(tb).contains(x)) && !tree_ids(ta.kids[i]).contains(x)
            && !tree_ids(tb.kids[j]).contains(x) ==> #[trigger] m2.nodes[x] == m1.nodes[x],
        forall|x: NodeId| #[trigger] tree_ids(ta).contains(x) ==> m1.live(x),
        forall|x: NodeId| #[trigger] tree_ids(tb).contains(x) ==> m1.live(x),
{
    lemma_ids_live(m1, ta);
    lemma_ids_live(m1, tb);
    assert forall|x: NodeId| #[trigger] tree_ids(ta.kids[i]).contains(x) implies tree_ids(ta).contains(x) && !tree_ids(tb).contains(x) by {
        lemma_tree_contains(ta, x);
    }
    assert forall|x: NodeId| #[trigger] tree_ids(tb.kids[j]).contains(x) implies tree_ids(tb).contains(x) && !tree_ids(ta).contains(x) by {
        lemma_tree_contains(tb, x);
    }
    assert forall|x: NodeId| (tree_ids(ta).contains(x) || tree_ids(tb).contains(x)) && !tree_ids(ta.kids[i]).contains(x)
        && !tree_ids(tb.kids[j]).contains(x) implies #[trigger] m2.nodes[x] == m1.nodes[x] by {
        assert(!m1.children(patches).contains(x));
    }
}

/// The children other than the pair read the same.
proof fn lemma_lift_reads(m1: StoreView, m2: StoreView, ta: Tree, tb: Tree, i: int, j: int, x1: Tree, y1: Tree, patches: NodeId, qs: Seq<NodeId>)
    requires
        lift_pre(m1, m2, ta, tb, i, j, x1, y1, patches, qs),
    ensures
        forall|k: int| 0 <= k < ta.kids.len() && k != i ==> #[trigger] reads_same(m1, m2, ta.kids[k]),
        forall|k: int| 0 <= k < tb.kids.len() && k != j ==> #[trigger] reads_same(m1, m2, tb.kids[k]),
{
    lemma_lift_nodes(m1, m2, ta, tb, i, j, x1, y1, patches, qs);
    assert forall|k: int| 0 <= k < ta.kids.len() && k != i implies #[trigger] reads_same(m1, m2, ta.kids[k]) by {
        assert forall|x: NodeId| #[trigger] tree_ids(ta.kids[k]).contains(x) implies m2.nodes[x] == m1.nodes[x]
            && m2.valuestring_of(x) == m1.valuestring_of(x) && m2.key_of(x) == m1.key_of(x) by {
            lemma_tree_contains(ta, x);
            if k < i { assert(disjoint(ta.kids[k], ta.kids[i])); } else { assert(disjoint(ta.kids[i], ta.kids[k])); }
            assert(crate::dup::handles_live(m1, x));
        }
    }
    assert forall|k: int| 0 <= k < tb.kids.len() && k != j implies #[trigger] reads_same(m1, m2, tb.kids[k]) by {
        assert forall|x: NodeId| #[trigger] tree_ids(tb.kids[k]).contains(x) implies m2.nodes[x] == m1.nodes[x]
            && m2.valuestring_of(x) == m1.valuestring_of(x) && m2.key_of(x) == m1.key_of(x) by {
            lemma_tree_contains(tb, x);
            if k < j { assert(disjoint(tb.kids[k], tb.kids[j])); } else { assert(disjoint(tb.kids[j], tb.kids[k])); }
            assert(crate::dup::handles_live(m1, x));
        }
    }
}

/// Both trees with their new subtrees in place are ready for the comparison.
proof fn lemma_lift_cj(m1: StoreView, m2: StoreView, ta: Tree, tb: Tree, i: int, j: int, x1: Tree, y1: Tree)
    requires
        cj_ready(m1, ta),
        cj_ready(m1, tb),
        disjoint(ta, tb),
        0 <= i < ta.kids.len(),
        0 <= j < tb.kids.len(),
        x1.id == ta.kids[i].id,
        y1.id == tb.kids[j].id,
        forall|x: NodeId| #[trigger] tree_ids(x1).contains(x) == tree_ids(ta.kids[i]).contains(x),
        forall|x: NodeId| #[trigger] tree_ids(y1).contains(x) == tree_ids(tb.kids[j]).contains(x),
        cj_ready(m2, x1),
        cj_ready(m2, y1),
        forall|x: NodeId| #[trigger] m1.live(x) ==> m2.live(x),
        m2.str_slots >= m1.str_slots,
        forall|x: NodeId| #[trigger] tree_ids(ta.kids[i]).contains(x) ==> tree_ids(ta).contains(x) && !tree_ids(tb).contains(x),
        forall|x: NodeId| #[trigger] tree_ids(tb.kids[j]).contains(x) ==> tree_ids(tb).contains(x) && !tree_ids(ta).contains(x),
        forall|x: NodeId| (tree_ids(ta).contains(x) || tree_ids(tb).contains(x)) && !tree_ids(ta.kids[i]).contains(x)
            && !tree_ids(tb.kids[j]).contains(x) ==> #[trigger] m2.nodes[x] == m1.nodes[x],
        m2.nodes[x1.id].next == m1.nodes[x1.id].next,
        m2.nodes[y1.id].next == m1.nodes[y1.id].next,
    ensures
        cj_ready(m2, Tree { id: ta.id, kids: ta.kids.update(i, x1) }),
        cj_ready(m2, Tree { id: tb.id, kids: tb.kids.update(j, y1) }),
        forall|x: NodeId| #[trigger] tree_ids(Tree { id: ta.id, kids: ta.kids.update(i, x1) }).contains(x) == tree_ids(ta).contains(x),
        forall|x: NodeId| #[trigger] tree_ids(Tree { id: tb.id, kids: tb.kids.update(j, y1) }).contains(x) == tree_ids(tb).contains(x),
        disjoint(Tree { id: ta.id, kids: ta.kids.update(i, x1) }, Tree { id: tb.id, kids: tb.kids.update(j, y1) }),
{
    assert forall|x: NodeId| tree_ids(ta).contains(x) && !tree_ids(ta.kids[i]).contains(x) implies #[trigger] m2.nodes[x] == m1.nodes[x] by {
        assert(!tree_ids(tb.kids[j]).contains(x));
    }
    assert forall|x: NodeId| tree_ids(tb).contains(x) && !tree_ids(tb.kids[j]).contains(x) implies #[trigger] m2.nodes[x] == m1.nodes[x] by {
        assert(!tree_ids(ta.kids[i]).contains(x));
    }
    assert forall|x: NodeId| #[trigger] m1.nodes.contains_key(x) implies m2.nodes.contains_key(x) by {
        assert(m1.live(x));
    }
    lemma_swap_kid(m1, m2, ta, i, x1);
    lemma_swap_kid(m1, m2, tb, j, y1);
}

/// After the step, the trees with the new subtrees in place are ready.
#[verifier::spinoff_prover]
#[verifier::rlimit(100)]
proof fn lemma_lift_ready(m1: StoreView, m2: StoreView, ta: Tree, tb: Tree, i: int, j: int, x1: Tree, y1: Tree, patches: NodeId, qs: Seq<NodeId>)
    requires
        cj_ready(m1, ta),
        cj_ready(m1, tb),
        disjoint(ta, tb),
        strs_live(m1, ta),
        strs_live(m1, tb),
        !tree_ids(ta).contains(patches),
        !tree_ids(tb).contains(patches),
        forall|x: NodeId| #[trigger] m1.children(patches).contains(x) ==> !tree_ids(ta).contains(x) && !tree_ids(tb).contains(x),
        0 <= i < ta.kids.len(),
        0 <= j < tb.kids.len(),
        x1.id == ta.kids[i].id,
        y1.id == tb.kids[j].id,
        forall|x: NodeId| #[trigger] tree_ids(x1).contains(x) == tree_ids(ta.kids[i]).contains(x),
        forall|x: NodeId| #[trigger] tree_ids(y1).contains(x) == tree_ids(tb.kids[j]).contains(x),
        diff_ready(m2, x1, y1, patches),
        forall|x: NodeId| #[trigger] m1.live(x) ==> m2.live(x),
        m2.str_slots >= m1.str_slots,
        strs_grow(m1, m2),
        forall|x: NodeId| #[trigger] tree_ids(ta.kids[i]).contains(x) ==> tree_ids(ta).contains(x) && !tree_ids(tb).contains(x),
        forall|x: NodeId| #[trigger] tree_ids(tb.kids[j]).contains(x) ==> tree_ids(tb).contains(x) && !tree_ids(ta).contains(x),
        forall|x: NodeId| (tree_ids(ta).contains(x) || tree_ids(tb).contains(x)) && !tree_ids(ta.kids[i]).contains(x)
            && !tree_ids(tb.kids[j]).contains(x) ==> #[trigger] m2.nodes[x] == m1.nodes[x],
        forall|x: NodeId| #[trigger] tree_ids(ta).contains(x) ==> m1.live(x),
        forall|x: NodeId| #[trigger] tree_ids(tb).contains(x) ==> m1.live(x),
        m2.nodes[x1.id].next == m1.nodes[x1.id].next,
        m2.nodes[y1.id].next == m1.nodes[y1.id].next,
        m2.children(patches) == m1.children(patches) + qs,
        forall|k: int| 0 <= k < qs.len() ==> !m1.live(#[trigger] qs[k]),
    ensures
        diff_ready(m2, Tree { id: ta.id, kids: ta.kids.update(i, x1) }, Tree { id: tb.id, kids: tb.kids.update(j, y1) }, patches),
        forall|x: NodeId| #[trigger] tree_ids(Tree { id: ta.id, kids: ta.kids.update(i, x1) }).contains(x) == tree_ids(ta).contains(x),
        forall|x: NodeId| #[trigger] tree_ids(Tree { id: tb.id, kids: tb.kids.update(j, y1) }).contains(x) == tree_ids(tb).contains(x),
{
    lemma_lift_cj(m1, m2, ta, tb, i, j, x1, y1);
    lemma_lift_live(m1, m2, ta, x1, i);
    lemma_lift_live(m1, m2, tb, y1, j);
    lemma_lift_list(m1, m2, Tree { id: ta.id, kids: ta.kids.update(i, x1) }, Tree { id: tb.id, kids: tb.kids.update(j, y1) }, patches, qs);
}

/// The strings of the tree with its new subtree in place are live.
proof fn lemma_lift_live(m1: StoreView, m2: StoreView, t: Tree, x1: Tree, i: int)
    requires
        0 <= i < t.kids.len(),
        strs_live(m1, t),
        strs_live(m2, x1),
        strs_grow(m1, m2),
        forall|x: NodeId| #[trigger] tree_ids(Tree { id: t.id, kids: t.kids.update(i, x1) }).contains(x) == tree_ids(t).contains(x),
        forall|x: NodeId| #[trigger] tree_ids(x1).contains(x) == tree_ids(t.kids[i]).contains(x),
        forall|x: NodeId| tree_ids(t).contains(x) && !tree_ids(t.kids[i]).contains(x) ==> #[trigger] m2.nodes[x] == m1.nodes[x],
    ensures
        strs_live(m2, Tree { id: t.id, kids: t.kids.update(i, x1) }),
{
    let t2 = Tree { id: t.id, kids: t.kids.update(i, x1) };
    assert forall|x: NodeId| #[trigger] tree_ids(t2).contains(x) implies crate::dup::handles_live(m2, x) by {
        assert(tree_ids(t).contains(x));
        if !tree_ids(x1).contains(x) {
            assert(crate::dup::handles_live(m1, x));
            assert(m2.nodes[x] == m1.nodes[x]);
        }
    }
}

/// The list of `patches` stays apart from the trees.
proof fn lemma_lift_list(m1: StoreView, m2: StoreView, a2: Tree, b2: Tree, patches: NodeId, qs: Seq<NodeId>)
    requires
        forall|x: NodeId| #[trigger] m1.children(patches).contains(x) ==> !tree_ids(a2).contains(x) && !tree_ids(b2).contains(x),
        forall|x: NodeId| #[trigger] tree_ids(a2).contains(x) ==> m1.live(x),
        forall|x: NodeId| #[trigger] tree_ids(b2).contains(x) ==> m1.live(x),
        m2.children(patches) == m1.children(patches) + qs,
        forall|k: int| 0 <= k < qs.len() ==> !m1.live(#[trigger] qs[k]),
    ensures
        forall|x: NodeId| #[trigger] m2.children(patches).contains(x) ==> !tree_ids(a2).contains(x) && !tree_ids(b2).contains(x),
{
    let c1 = m1.children(patches);
    assert forall|x: NodeId| #[trigger] m2.children(patches).contains(x) implies !tree_ids(a2).contains(x) && !tree_ids(b2).contains(x) by {
        let c2 = m2.children(patches);
        let n = choose|n: int| 0 <= n < c2.len() && c2[n] == x;
        if n < c1.len() {
            assert(c1[n] == x);
            assert(c1.contains(x));
        } else {
            assert(qs[n - c1.len()] == x);
        }
    }
}

/// A step on the subtrees `ta.kids[i]` and `tb.kids[j]` is a step on `ta` and `tb`, with
/// the new subtrees in place; the other children are untouched.
#[verifier::spinoff_prover]
#[verifier::rlimit(60)]
pub proof fn lemma_dpost_lift(
    m1: StoreView, m2: StoreView, ta: Tree, tb: Tree, i: int, j: int, x1: Tree, y1: Tree, patches: NodeId, qs: Seq<NodeId>,
)
    requires
        diff_ready(m1, ta, tb, patches),
        0 <= i < ta.kids.len(),
        0 <= j < tb.kids.len(),
        base_post(m1, m2, ta.kids[i], tb.kids[j], x1, y1, patches, qs),
    ensures
        base_post(m1, m2, ta, tb, Tree { id: ta.id, kids: ta.kids.update(i, x1) }, Tree { id: tb.id, kids: tb.kids.update(j, y1) }, patches, qs),
        forall|k: int| 0 <= k < ta.kids.len() && k != i ==> #[trigger] reads_same(m1, m2, ta.kids[k]),
        forall|k: int| 0 <= k < tb.kids.len() && k != j ==> #[trigger] reads_same(m1, m2, tb.kids[k]),
{
    let c1 = m1.children(patches);
    lemma_lift_nodes(m1, m2, ta, tb, i, j, x1, y1, patches, qs);
    lemma_lift_reads(m1, m2, ta, tb, i, j, x1, y1, patches, qs);
    lemma_lift_ready(m1, m2, ta, tb, i, j, x1, y1, patches, qs);
    assert forall|x: NodeId| m1.live(x) && !tree_ids(ta).contains(x) && !tree_ids(tb).contains(x) && x != patches
        && !c1.contains(x) implies #[trigger] m2.nodes[x] == m1.nodes[x] by {
        assert(!tree_ids(ta.kids[i]).contains(x));
        assert(!tree_ids(tb.kids[j]).contains(x));
    }
    assert forall|x: NodeId| (tree_ids(ta).contains(x) || tree_ids(tb).contains(x)) implies #[trigger] same_data(m2.nodes[x], m1.nodes[x]) by {
        if !tree_ids(ta.kids[i]).contains(x) && !tree_ids(tb.kids[j]).contains(x) {
            assert(m2.nodes[x] == m1.nodes[x]);
        }
    }
    lemma_tree_contains(ta, ta.id);
    lemma_tree_contains(tb, tb.id);
    assert(!tree_ids(ta.kids[i]).contains(ta.id));
    assert(!tree_ids(tb.kids[j]).contains(tb.id));
    assert(m2.nodes[ta.id] == m1.nodes[ta.id]);
    assert(m2.nodes[tb.id] == m1.nodes[tb.id]);
}

/// A ready tree whose nodes are kept, in a store whose strings grew, is as ready and
/// reads the same.
pub proof fn lemma_ready_kept(m1: StoreView, m2: StoreView, t: Tree)
    requires
        cj_ready(m1, t),
        strs_live(m1, t),
        forall|x: NodeId| #[trigger] tree_ids(t).contains(x) ==> m2.nodes[x] == m1.nodes[x] && m2.live(x),
        strs_grow(m1, m2),
        m2.slots_ok(),
    ensures
        cj_ready(m2, t),
        strs_live(m2, t),
        reads_same(m1, m2, t),
{
    lemma_ids_live(m1, t);
    assert(m1.agrees_on(m2, tree_ids(t).to_set())) by {
        assert forall|x: NodeId| tree_ids(t).to_set().contains(x) implies (m1.live(x) == m2.live(x)
            && (m1.live(x) ==> m1.nodes[x] == m2.nodes[x])) by {
            assert(tree_ids(t).contains(x));
        }
    }
    crate::tree::lemma_tree_frame(m1, m2, t, false);
    assert forall|x: NodeId| #[trigger] tree_ids(t).contains(x) implies crate::dup::handles_live(m2, x)
        && m2.str_ok(m2.nodes[x].valuestring) && m2.str_ok(m2.nodes[x].key)
        && m2.valuestring_of(x) == m1.valuestring_of(x) && m2.key_of(x) == m1.key_of(x) by {
        assert(crate::dup::handles_live(m1, x));
    }
}

/// A node of `tb` can be copied.
pub proof fn lemma_value_ready(m: StoreView, tb: Tree, v: NodeId)
    requires
        cj_ready(m, tb),
        strs_live(m, tb),
        tree_ids(tb).contains(v),
    ensures
        crate::dup::dup_ready(m, v, true),
{
    let s = crate::surgery::lemma_subtree(m, tb, v);
    crate::tree::lemma_tree_is(m, s, false);
    crate::utils::lemma_tree_ids_live(m, tb, v);
}

/// Composing one patch is a step that leaves the documents as they are.
#[verifier::spinoff_prover]
#[verifier::rlimit(60)]
proof fn lemma_compose_post(m0: StoreView, m1: StoreView, ta: Tree, tb: Tree, patches: NodeId, q: NodeId, op: Seq<u8>, path: Seq<u8>, value: Option<NodeId>)
    requires
        diff_ready(m0, ta, tb, patches),
        m1.slots_ok(),
        !m0.live(q),
        m1.live(q),
        q != patches,
        m1.children(patches) == m0.children(patches).push(q),
        listed(m1, patches),
        !m1.children(patches).contains(patches),
        patch_is(m1, q, op, path, value),
        forall|x: NodeId| #[trigger] patch_feet(m1, q).contains(x) ==> !m0.live(x) && x != q,
        forall|x: NodeId| #[trigger] m0.live(x) ==> m1.live(x),
        forall|x: NodeId| m0.live(x) && x != patches && !m0.children(patches).contains(x)
            ==> #[trigger] m1.nodes[x] == m0.nodes[x],
        forall|x: NodeId| #[trigger] m0.children(patches).contains(x) ==> same_but_sibs(m1.nodes[x], m0.nodes[x]),
        same_data(m1.nodes[patches], m0.nodes[patches]),
        m1.nodes[patches].next == m0.nodes[patches].next,
        m1.nodes[patches].prev == m0.nodes[patches].prev,
        strs_grow(m0, m1),
        m1.fail_allocs == m0.fail_allocs,
        m1.str_slots >= m0.str_slots,
    ensures
        diff_post(m0, m1, ta, tb, ta, tb, patches, seq![q]),
        patches_are(m1, seq![q], seq![(op, path, value)]),
        reads_same(m0, m1, ta),
        reads_same(m0, m1, tb),
{
    lemma_ids_live(m0, ta);
    lemma_ids_live(m0, tb);
    assert forall|x: NodeId| #[trigger] tree_ids(ta).contains(x) implies m1.nodes[x] == m0.nodes[x] && m1.live(x) by {
        assert(!m0.children(patches).contains(x));
    }
    assert forall|x: NodeId| #[trigger] tree_ids(tb).contains(x) implies m1.nodes[x] == m0.nodes[x] && m1.live(x) by {
        assert(!m0.children(patches).contains(x));
    }
    lemma_ready_kept(m0, m1, ta);
    lemma_ready_kept(m0, m1, tb);
    assert(m1.children(patches) =~= m0.children(patches) + seq![q]);
    lemma_lift_list(m0, m1, ta, tb, patches, seq![q]);
    assert(seq![q][0] == q);
    assert(seq![(op, path, value)][0] == (op, path, value));
    assert forall|k1: int, k2: int| 0 <= k1 < 1 && 0 <= k2 < 1 implies !#[trigger] patch_feet(m1, seq![q][k1]).contains(#[trigger] seq![q][k2]) by {}
    assert forall|x: NodeId| (tree_ids(ta).contains(x) || tree_ids(tb).contains(x)) implies #[trigger] same_data(m1.nodes[x], m0.nodes[x]) by {
        assert(!m0.children(patches).contains(x));
    }
    lemma_tree_contains(ta, ta.id);
    lemma_tree_contains(tb, tb.id);
    assert(!m0.children(patches).contains(ta.id));
    assert(!m0.children(patches).contains(tb.id));
}

/// Compose one patch onto `patches`, the documents untouched.
#[verifier::spinoff_prover]
#[verifier::rlimit(80)]
fn compose_one(
    store: &mut SafeStore,
    patches: NodeId,
    op: &[u8],
    path: &[u8],
    suffix: Option<&[u8]>,
    value: Option<NodeId>,
    Ghost(ta): Ghost<Tree>,
    Ghost(tb): Ghost<Tree>,
) -> (r: Ghost<NodeId>)
    requires
        diff_ready(old(store)@, ta, tb, patches),
        value matches Some(v) ==> tree_ids(tb).contains(v),
    ensures
        diff_post(old(store)@, final(store)@, ta, tb, ta, tb, patches, seq![r@]),
        patches_are(final(store)@, seq![r@], seq![(op@, patch_path(path@, crate::types::opt_bytes(suffix)), value)]),
        reads_same(old(store)@, final(store)@, ta),
        reads_same(old(store)@, final(store)@, tb),
{
    let ghost m0 = store@;
    proof {
        lemma_list_live(m0, patches);
        let c = m0.children(patches);
        crate::tree::lemma_chain_is(m0, m0.nodes[patches].child, c);
        if c.len() > 0 {
            assert(c.contains(c.last()));
        }
        if let Some(v) = value {
            lemma_value_ready(m0, tb, v);
        }
    }
    crate::patch::compose_patch(store, patches, op, path, suffix, value);
    let ghost m1 = store@;
    let ghost q = lemma_composed(m0, m1, patches, op@, patch_path(path@, crate::types::opt_bytes(suffix)), value);
    proof {
        store.lemma_slots_ok();
        lemma_compose_post(m0, m1, ta, tb, patches, q, op@, patch_path(path@, crate::types::opt_bytes(suffix)), value);
    }
    Ghost(q)
}

/// What a pair of children needs, from what their parents have.
pub proof fn lemma_kids_ready(m: StoreView, ta: Tree, tb: Tree, i: int, j: int, patches: NodeId)
    requires
        diff_ready(m, ta, tb, patches),
        0 <= i < ta.kids.len(),
        0 <= j < tb.kids.len(),
    ensures
        diff_ready(m, ta.kids[i], tb.kids[j], patches),
        m.live(ta.kids[i].id),
        m.live(tb.kids[j].id),
        m.str_ok(m.nodes[ta.kids[i].id].key),
        m.str_ok(m.nodes[tb.kids[j].id].key),
        m.nodes[ta.kids[i].id].next == (if i + 1 < ta.kids.len() { Some(ta.kids[i + 1].id) } else { None::<NodeId> }),
        m.nodes[tb.kids[j].id].next == (if j + 1 < tb.kids.len() { Some(tb.kids[j + 1].id) } else { None::<NodeId> }),
        tree_ids(tb).contains(tb.kids[j].id),
{
    crate::equal::lemma_kid_ready(m, ta, i);
    crate::equal::lemma_kid_ready(m, tb, j);
    assert(disjoint(ta.kids[i], tb.kids[j]));
    assert(tree_ids(tb.kids[j])[0] == tb.kids[j].id);
    assert(tree_ids(tb.kids[j]).contains(tb.kids[j].id));
}

/// Sorting the members of the two objects is a step that makes no patch.
pub proof fn lemma_sort_dpost(m0: StoreView, m1: StoreView, ta: Tree, tb: Tree, ta1: Tree, tb1: Tree, patches: NodeId)
    requires
        diff_ready(m0, ta, tb, patches),
        crate::equal::cj_post(m0, m1, ta, tb, ta1, tb1),
    ensures
        diff_post(m0, m1, ta, tb, ta1, tb1, patches, Seq::empty()),
        patches_are(m1, Seq::empty(), Seq::empty()),
{
    let c = m0.children(patches);
    lemma_list_live(m0, patches);
    assert forall|i: int| 0 <= i < c.len() implies #[trigger] m1.nodes[c[i]] == m0.nodes[c[i]] && m1.live(c[i]) by {
        assert(c.contains(c[i]));
    }
    lemma_listed_frame(m0, m1, patches);
    assert(m1.children(patches) + Seq::<NodeId>::empty() =~= m0.children(patches));
    assert forall|x: NodeId| #[trigger] tree_ids(ta1).contains(x) implies crate::dup::handles_live(m1, x) by {
        assert(tree_ids(ta).contains(x));
        assert(crate::dup::handles_live(m0, x));
        lemma_ids_live(m0, ta);
        assert(same_data(m1.nodes[x], m0.nodes[x]));
    }
    assert forall|x: NodeId| #[trigger] tree_ids(tb1).contains(x) implies crate::dup::handles_live(m1, x) by {
        assert(tree_ids(tb).contains(x));
        assert(crate::dup::handles_live(m0, x));
        lemma_ids_live(m0, tb);
        assert(same_data(m1.nodes[x], m0.nodes[x]));
    }
    assert forall|x: NodeId| #[trigger] c.contains(x) implies same_but_sibs(m1.nodes[x], m0.nodes[x]) by {}
    assert forall|x: NodeId| (tree_ids(ta).contains(x) || tree_ids(tb).contains(x)) implies #[trigger] same_data(m1.nodes[x], m0.nodes[x]) by {
        lemma_ids_live(m0, ta);
        lemma_ids_live(m0, tb);
    }
}

/// The children of a ready tree can be counted in a `usize`.
pub fn kids_fit(store: &SafeStore, Ghost(t): Ghost<Tree>)
    requires
        cj_ready(store@, t),
    ensures
        t.kids.len() <= usize::MAX,
{
    proof {
        crate::utils::lemma_tree_children_pub(store@, t);
        crate::tree::lemma_chain_is(store@, store@.nodes[t.id].child, tops(t.kids));
    }
    store.distinct_live_fit(Ghost(tops(t.kids)));
}

/// `path`, then `/` and the encoded `suffix`.
fn join_path(path: &Vec<u8>, suffix: &[u8]) -> (r: Vec<u8>)
    ensures
        r@ == patch_path(path@, Some(suffix@)),
{
    let mut full = path.clone();
    full.push(47u8);
    let enc = crate::pointer::encode_string_as_pointer(suffix);
    crate::string::push_all(&mut full, &enc);
    full
}

/// `path`, then `/` and the digits of `i`.
fn join_index(path: &Vec<u8>, i: usize) -> (r: Vec<u8>)
    ensures
        r@ == idx_path(path@, i as nat),
{
    let mut full = path.clone();
    full.push(47u8);
    let d = dec_bytes(i);
    crate::string::push_all(&mut full, &d);
    full
}

/// Append to `patches` the operations that take the value below `a` (the root of `ta`) to
/// that below `b` (the root of `tb`), at `path`.
#[verifier::spinoff_prover]
#[verifier::rlimit(80)]
fn create_patches<E: Fn(u64, u64) -> bool>(
    store: &mut SafeStore,
    patches: NodeId,
    path: &Vec<u8>,
    a: NodeId,
    b: NodeId,
    cs: bool,
    e: &E,
    Ghost(ta): Ghost<Tree>,
    Ghost(tb): Ghost<Tree>,
) -> (r: Ghost<(Tree, Tree, Seq<NodeId>)>)
    requires
        diff_ready(old(store)@, ta, tb, patches),
        ta.id == a,
        tb.id == b,
        eq_ok(*e),
    ensures
        diff_post(old(store)@, final(store)@, ta, tb, r@.0, r@.1, patches, r@.2),
        patches_are(final(store)@, r@.2, diff(final(store)@, r@.0, r@.1, path@, cs, *e)),
    decreases tsz(ta) + tsz(tb), 1nat,
{
    let ghost m0 = store@;
    proof {
        lemma_dpost_refl(m0, ta, tb, patches);
        lemma_ready_root(m0, ta);
        lemma_ready_root(m0, tb);
        assert(patches_are(m0, Seq::<NodeId>::empty(), Seq::<Step>::empty()));
    }
    let ka = crate::types::type_kind(store.ty(a));
    let kb = crate::types::type_kind(store.ty(b));
    let changed = if ka != kb {
        true
    } else if ka == NUMBER {
        store.valueint(a) != store.valueint(b) || !crate::equal::call_eq(e, store.valuedouble(a), store.valuedouble(b))
    } else if ka == STRING {
        match (store.valuestring_bytes(a), store.valuestring_bytes(b)) {
            (Some(x), Some(y)) => !crate::types::bytes_equal(x, y),
            (None, None) => false,
            _ => true,
        }
    } else {
        false
    };
    if changed {
        let op: Vec<u8> = vec![114u8, 101, 112, 108, 97, 99, 101];
        proof {
            assert(tree_ids(tb)[0] == b);
            assert(tree_ids(tb).contains(b));
        }
        let Ghost(q) = compose_one(store, patches, op.as_slice(), path.as_slice(), None, Some(b), Ghost(ta), Ghost(tb));
        proof {
            assert(op@ == op_replace());
            lemma_reads_same_root(m0, store@, ta);
            lemma_reads_same_root(m0, store@, tb);
            assert(diff(store@, ta, tb, path@, cs, *e) =~= seq![(op_replace(), path@, Some(b))]);
        }
        return Ghost((ta, tb, seq![q]));
    }
    if ka == ARRAY {
        let r = cp_arr(store, patches, path, a, b, cs, e, Ghost(ta), Ghost(tb));
        proof {
            assert(same_data(store@.nodes[a], m0.nodes[a])) by { assert(tree_ids(ta)[0] == a); }
            assert(same_data(store@.nodes[b], m0.nodes[b])) by { assert(tree_ids(tb)[0] == b); }
        }
        return r;
    }
    if ka == OBJECT {
        let (ta1, tb1) = crate::equal::sort_pair(store, a, b, cs, Ghost(ta), Ghost(tb));
        let ghost m1 = store@;
        proof {
            lemma_sort_dpost(m0, m1, ta, tb, ta1@, tb1@, patches);
            crate::equal::lemma_same_size(ta, ta1@);
            crate::equal::lemma_same_size(tb, tb1@);
        }
        let Ghost(res) = cp_obj(store, patches, path, a, b, cs, e, ta1, tb1);
        proof {
            lemma_dpost_trans(m0, m1, store@, ta, tb, ta1@, tb1@, res.0, res.1, patches, Seq::empty(), res.2,
                Seq::empty(), flat(store@, res.0, res.1, path@, obj_walk(store@, res.0, res.1, cs, 0, 0), true, cs, *e));
            assert(Seq::<NodeId>::empty() + res.2 =~= res.2);
            assert(Seq::<Step>::empty() + flat(store@, res.0, res.1, path@, obj_walk(store@, res.0, res.1, cs, 0, 0), true, cs, *e)
                =~= flat(store@, res.0, res.1, path@, obj_walk(store@, res.0, res.1, cs, 0, 0), true, cs, *e));
            assert(same_data(store@.nodes[a], m0.nodes[a])) by { assert(tree_ids(ta)[0] == a); }
            assert(same_data(store@.nodes[b], m0.nodes[b])) by { assert(tree_ids(tb)[0] == b); }
        }
        return Ghost(res);
    }
    proof {
        assert(diff(m0, ta, tb, path@, cs, *e) =~= Seq::<Step>::empty());
    }
    Ghost((ta, tb, Seq::empty()))
}

/// Every move of the walk over two arrays reads only their children.
proof fn lemma_arr_moves_below(ta: Tree, tb: Tree)
    ensures
        forall|n: int| 0 <= n < arr_moves(ta, tb).len()
            ==> move_below(#[trigger] arr_moves(ta, tb)[n], ta.kids.len() as int, tb.kids.len() as int, false),
{
}

/// The last of the first `n + 1` moves.
proof fn lemma_take_last<E: Fn(u64, u64) -> bool>(m: StoreView, ta: Tree, tb: Tree, path: Seq<u8>, mvs: Seq<Move>, n: int, keyed: bool, cs: bool, e: E)
    requires
        0 <= n < mvs.len(),
    ensures
        flat(m, ta, tb, path, mvs.take(n + 1), keyed, cs, e)
            == flat(m, ta, tb, path, mvs.take(n), keyed, cs, e) + flat(m, ta, tb, path, seq![mvs[n]], keyed, cs, e),
{
    assert(mvs.take(n + 1).drop_last() =~= mvs.take(n));
    assert(mvs.take(n + 1).last() == mvs[n]);
    assert(seq![mvs[n]].drop_last() =~= Seq::<Move>::empty());
    assert(seq![mvs[n]].last() == mvs[n]);
    assert(flat(m, ta, tb, path, Seq::<Move>::empty(), keyed, cs, e) =~= Seq::<Step>::empty());
}

/// The moves before `n` only read children that a step kept.
proof fn lemma_take_frame<E: Fn(u64, u64) -> bool>(
    m1: StoreView, m2: StoreView, ta1: Tree, tb1: Tree, ta2: Tree, tb2: Tree,
    path: Seq<u8>, mvs: Seq<Move>, n: int, keyed: bool, cs: bool, e: E, ib: int, jb: int,
)
    requires
        0 <= n <= mvs.len(),
        kids_same(m1, m2, ta1, ta2, ib),
        kids_same(m1, m2, tb1, tb2, jb),
        forall|k: int| 0 <= k < n ==> move_below(#[trigger] mvs[k], ib, jb, keyed),
    ensures
        flat(m1, ta1, tb1, path, mvs.take(n), keyed, cs, e) == flat(m2, ta2, tb2, path, mvs.take(n), keyed, cs, e),
{
    let t = mvs.take(n);
    assert forall|k: int| 0 <= k < t.len() implies move_below(#[trigger] t[k], ib, jb, keyed) by {
        assert(t[k] == mvs[k]);
    }
    lemma_flat_frame(m1, m2, ta1, tb1, ta2, tb2, path, t, keyed, cs, e, ib, jb);
}

/// The operations of a single move.
proof fn lemma_flat_one<E: Fn(u64, u64) -> bool>(m: StoreView, ta: Tree, tb: Tree, path: Seq<u8>, mv: Move, keyed: bool, cs: bool, e: E)
    ensures
        (mv matches Move::Both(i, j) && 0 <= i < ta.kids.len() && 0 <= j < tb.kids.len())
            ==> flat(m, ta, tb, path, seq![mv], keyed, cs, e) == diff(m, ta.kids[mv->Both_0], tb.kids[mv->Both_1],
                both_path(m, ta, path, mv->Both_0, keyed), cs, e),
        mv matches Move::Remove(i) ==> flat(m, ta, tb, path, seq![mv], keyed, cs, e)
            == seq![(op_remove(), rem_path(m, ta, path, mv->Remove_0, keyed), None::<NodeId>)],
        (mv matches Move::Add(j) && 0 <= j < tb.kids.len()) ==> flat(m, ta, tb, path, seq![mv], keyed, cs, e)
            == seq![(op_add(), add_path(m, tb, path, mv->Add_0, keyed), Some(tb.kids[mv->Add_0].id))],
{
    assert(seq![mv].drop_last() =~= Seq::<Move>::empty());
    assert(seq![mv].last() == mv);
    assert(flat(m, ta, tb, path, Seq::<Move>::empty(), keyed, cs, e) =~= Seq::<Step>::empty());
    let f = flat(m, ta, tb, path, seq![mv], keyed, cs, e);
    match mv {
        Move::Both(i, j) => {
            if 0 <= i < ta.kids.len() && 0 <= j < tb.kids.len() {
                assert(f =~= diff(m, ta.kids[i], tb.kids[j], both_path(m, ta, path, i, keyed), cs, e));
            }
        },
        Move::Remove(i) => {
            assert(f =~= seq![(op_remove(), rem_path(m, ta, path, i, keyed), None::<NodeId>)]);
        },
        Move::Add(j) => {
            if 0 <= j < tb.kids.len() {
                assert(f =~= seq![(op_add(), add_path(m, tb, path, j, keyed), Some(tb.kids[j].id))]);
            }
        },
    }
}

/// One move that composed a patch and kept the documents: where the walk has got to.
#[verifier::spinoff_prover]
#[verifier::rlimit(60)]
proof fn lemma_one_step<E: Fn(u64, u64) -> bool>(
    m0: StoreView, m1: StoreView, m2: StoreView, ta: Tree, tb: Tree, ta1: Tree, tb1: Tree,
    patches: NodeId, qs: Seq<NodeId>, q: NodeId, path: Seq<u8>, mvs: Seq<Move>, n: int, keyed: bool, cs: bool, e: E, st2: Seq<Step>,
)
    requires
        diff_ready(m0, ta, tb, patches),
        diff_post(m0, m1, ta, tb, ta1, tb1, patches, qs),
        patches_are(m1, qs, flat(m1, ta1, tb1, path, mvs.take(n), keyed, cs, e)),
        diff_post(m1, m2, ta1, tb1, ta1, tb1, patches, seq![q]),
        patches_are(m2, seq![q], st2),
        reads_same(m1, m2, ta1),
        reads_same(m1, m2, tb1),
        0 <= n < mvs.len(),
        forall|k: int| 0 <= k < n ==> move_below(#[trigger] mvs[k], ta1.kids.len() as int, tb1.kids.len() as int, keyed),
        flat(m2, ta1, tb1, path, seq![mvs[n]], keyed, cs, e) == st2,
    ensures
        diff_post(m0, m2, ta, tb, ta1, tb1, patches, qs + seq![q]),
        patches_are(m2, qs + seq![q], flat(m2, ta1, tb1, path, mvs.take(n + 1), keyed, cs, e)),
{
    let st1 = flat(m1, ta1, tb1, path, mvs.take(n), keyed, cs, e);
    lemma_dpost_trans(m0, m1, m2, ta, tb, ta1, tb1, ta1, tb1, patches, qs, seq![q], st1, st2);
    assert forall|k: int| 0 <= k < ta1.kids.len() implies #[trigger] ta1.kids[k] == ta1.kids[k] && reads_same(m1, m2, ta1.kids[k]) by {
        lemma_reads_same_kid(m1, m2, ta1, k);
    }
    assert forall|k: int| 0 <= k < tb1.kids.len() implies #[trigger] tb1.kids[k] == tb1.kids[k] && reads_same(m1, m2, tb1.kids[k]) by {
        lemma_reads_same_kid(m1, m2, tb1, k);
    }
    lemma_take_frame(m1, m2, ta1, tb1, ta1, tb1, path, mvs, n, keyed, cs, e, ta1.kids.len() as int, tb1.kids.len() as int);
    lemma_take_last(m2, ta1, tb1, path, mvs, n, keyed, cs, e);
}

/// One move that compared a pair of children: where the walk has got to.
#[verifier::spinoff_prover]
#[verifier::rlimit(60)]
proof fn lemma_pair_step<E: Fn(u64, u64) -> bool>(
    m0: StoreView, m1: StoreView, m2: StoreView, ta: Tree, tb: Tree, ta1: Tree, tb1: Tree, i: int, j: int, x1: Tree, y1: Tree,
    patches: NodeId, qs: Seq<NodeId>, qs2: Seq<NodeId>, path: Seq<u8>, np: Seq<u8>, mvs: Seq<Move>, n: int, keyed: bool, cs: bool, e: E,
)
    requires
        diff_ready(m0, ta, tb, patches),
        diff_post(m0, m1, ta, tb, ta1, tb1, patches, qs),
        patches_are(m1, qs, flat(m1, ta1, tb1, path, mvs.take(n), keyed, cs, e)),
        0 <= i < ta1.kids.len(),
        0 <= j < tb1.kids.len(),
        diff_post(m1, m2, ta1.kids[i], tb1.kids[j], x1, y1, patches, qs2),
        patches_are(m2, qs2, diff(m2, x1, y1, np, cs, e)),
        0 <= n < mvs.len(),
        mvs[n] == Move::Both(i, j),
        forall|k: int| 0 <= k < n ==> move_below(#[trigger] mvs[k], i, j, keyed),
        np == both_path(m1, ta1, path, i, keyed),
    ensures
        diff_post(m0, m2, ta, tb, Tree { id: ta1.id, kids: ta1.kids.update(i, x1) }, Tree { id: tb1.id, kids: tb1.kids.update(j, y1) }, patches, qs + qs2),
        patches_are(m2, qs + qs2, flat(m2, Tree { id: ta1.id, kids: ta1.kids.update(i, x1) },
            Tree { id: tb1.id, kids: tb1.kids.update(j, y1) }, path, mvs.take(n + 1), keyed, cs, e)),
{
    let ta2 = Tree { id: ta1.id, kids: ta1.kids.update(i, x1) };
    let tb2 = Tree { id: tb1.id, kids: tb1.kids.update(j, y1) };
    lemma_dpost_lift(m1, m2, ta1, tb1, i, j, x1, y1, patches, qs2);
    assert(diff_post(m1, m2, ta1, tb1, ta2, tb2, patches, qs2));
    let st1 = flat(m1, ta1, tb1, path, mvs.take(n), keyed, cs, e);
    let st2 = diff(m2, x1, y1, np, cs, e);
    lemma_dpost_trans(m0, m1, m2, ta, tb, ta1, tb1, ta2, tb2, patches, qs, qs2, st1, st2);
    assert(kids_same(m1, m2, ta1, ta2, i));
    assert(kids_same(m1, m2, tb1, tb2, j));
    lemma_take_frame(m1, m2, ta1, tb1, ta2, tb2, path, mvs, n, keyed, cs, e, i, j);
    lemma_take_last(m2, ta2, tb2, path, mvs, n, keyed, cs, e);
    lemma_flat_one(m2, ta2, tb2, path, mvs[n], keyed, cs, e);
    // the key of the pair's first child reads the same
    let c = ta1.kids[i].id;
    crate::equal::lemma_kid_ready(m1, ta1, i);
    assert(tree_ids(ta1.kids[i])[0] == c);
    assert(tree_ids(ta1.kids[i]).contains(c));
    assert(tree_ids(ta1).contains(c));
    assert(crate::dup::handles_live(m1, c));
    assert(same_data(m2.nodes[c], m1.nodes[c]));
    assert(ta2.kids[i].id == c);
    assert(both_path(m2, ta2, path, i, keyed) == np);
}

/// Append the operations for the elements of two arrays.
#[verifier::spinoff_prover]
#[verifier::rlimit(100)]
fn cp_arr<E: Fn(u64, u64) -> bool>(
    store: &mut SafeStore,
    patches: NodeId,
    path: &Vec<u8>,
    a: NodeId,
    b: NodeId,
    cs: bool,
    e: &E,
    Ghost(ta): Ghost<Tree>,
    Ghost(tb): Ghost<Tree>,
) -> (r: Ghost<(Tree, Tree, Seq<NodeId>)>)
    requires
        diff_ready(old(store)@, ta, tb, patches),
        ta.id == a,
        tb.id == b,
        eq_ok(*e),
    ensures
        diff_post(old(store)@, final(store)@, ta, tb, r@.0, r@.1, patches, r@.2),
        patches_are(final(store)@, r@.2, flat(final(store)@, r@.0, r@.1, path@, arr_moves(r@.0, r@.1), false, cs, *e)),
        r@.0.kids.len() == ta.kids.len(),
        r@.1.kids.len() == tb.kids.len(),
    decreases tsz(ta) + tsz(tb), 0nat,
{
    let ghost m0 = store@;
    let ghost mvs = arr_moves(ta, tb);
    let ghost mut ka = ta.kids;
    let ghost mut kb = tb.kids;
    let ghost mut qs: Seq<NodeId> = Seq::empty();
    proof {
        lemma_dpost_refl(m0, ta, tb, patches);
        lemma_ready_root(m0, ta);
        lemma_ready_root(m0, tb);
        lemma_arr_moves_below(ta, tb);
        assert(mvs.take(0) =~= Seq::<Move>::empty());
        assert(flat(m0, ta, tb, path@, Seq::<Move>::empty(), false, cs, *e) =~= Seq::<Step>::empty());
    }
    kids_fit(store, Ghost(ta));
    kids_fit(store, Ghost(tb));
    let mut fa = store.child(a);
    let mut fb = store.child(b);
    let mut idx: usize = 0;
    while fa.is_some() && fb.is_some()
        invariant
            m0 == old(store)@,
            diff_ready(m0, ta, tb, patches),
            eq_ok(*e),
            ta.id == a,
            tb.id == b,
            mvs == arr_moves(ta, tb),
            ka.len() == ta.kids.len(),
            kb.len() == tb.kids.len(),
            ta.kids.len() <= usize::MAX,
            tb.kids.len() <= usize::MAX,
            diff_post(m0, store@, ta, tb, Tree { id: a, kids: ka }, Tree { id: b, kids: kb }, patches, qs),
            patches_are(store@, qs, flat(store@, Tree { id: a, kids: ka }, Tree { id: b, kids: kb }, path@, mvs.take(idx as int), false, cs, *e)),
            idx <= ka.len(),
            idx <= kb.len(),
            fa == (if idx < ka.len() { Some(ka[idx as int].id) } else { None::<NodeId> }),
            fb == (if idx < kb.len() { Some(kb[idx as int].id) } else { None::<NodeId> }),
            forall|n: int| 0 <= n < mvs.len() ==> move_below(#[trigger] mvs[n], ta.kids.len() as int, tb.kids.len() as int, false),
            forall|k: int| idx <= k < ka.len() ==> #[trigger] ka[k] == ta.kids[k],
            forall|k: int| idx <= k < kb.len() ==> #[trigger] kb[k] == tb.kids[k],
        decreases ka.len() - idx,
    {
        let x = fa.unwrap();
        let y = fb.unwrap();
        let ghost m1 = store@;
        let ghost ta1 = Tree { id: a, kids: ka };
        let ghost tb1 = Tree { id: b, kids: kb };
        let ghost i = idx as int;
        proof {
            lemma_kids_ready(m1, ta1, tb1, i, i, patches);
            lemma_kid_smaller(ta, i);
            lemma_kid_smaller(tb, i);
            assert(ka[i] == ta.kids[i]);
            assert(kb[i] == tb.kids[i]);
        }
        let np = join_index(path, idx);
        let Ghost(res) = create_patches(store, patches, &np, x, y, cs, e, Ghost(ka[i]), Ghost(kb[i]));
        let ghost m2 = store@;
        proof {
            assert(mvs[i] == Move::Both(i, i));
            assert forall|k: int| 0 <= k < i implies move_below(#[trigger] mvs[k], i, i, false) by {
                assert(mvs[k] == Move::Both(k, k));
            }
            lemma_pair_step(m0, m1, m2, ta, tb, ta1, tb1, i, i, res.0, res.1, patches, qs, res.2, path@, np@, mvs, i, false, cs, *e);
            let ta2 = Tree { id: a, kids: ka.update(i, res.0) };
            let tb2 = Tree { id: b, kids: kb.update(i, res.1) };
            crate::equal::lemma_kid_ready(m2, ta2, i);
            crate::equal::lemma_kid_ready(m2, tb2, i);
            ka = ka.update(i, res.0);
            kb = kb.update(i, res.1);
            qs = qs + res.2;
        }
        fa = store.next(x);
        fb = store.next(y);
        idx = idx + 1;
    }
    let ghost n0 = idx as int;
    let ghost mut r: int = 0;
    proof {
        assert(n0 == (if ta.kids.len() < tb.kids.len() { ta.kids.len() } else { tb.kids.len() }));
    }
    let rem: Vec<u8> = vec![114u8, 101, 109, 111, 118, 101];
    let digits = dec_bytes(idx);
    while fa.is_some()
        invariant
            m0 == old(store)@,
            diff_ready(m0, ta, tb, patches),
            ta.id == a,
            tb.id == b,
            mvs == arr_moves(ta, tb),
            ka.len() == ta.kids.len(),
            kb.len() == tb.kids.len(),
            rem@ == op_remove(),
            digits@ == dec(n0 as nat),
            n0 == idx,
            n0 <= ka.len(),
            n0 <= kb.len(),
            n0 == ka.len() || n0 == kb.len(),
            0 <= r,
            n0 + r <= ka.len(),
            diff_post(m0, store@, ta, tb, Tree { id: a, kids: ka }, Tree { id: b, kids: kb }, patches, qs),
            patches_are(store@, qs, flat(store@, Tree { id: a, kids: ka }, Tree { id: b, kids: kb }, path@, mvs.take(n0 + r), false, cs, *e)),
            fa == (if n0 + r < ka.len() { Some(ka[n0 + r].id) } else { None::<NodeId> }),
            fb == (if n0 < kb.len() { Some(kb[n0].id) } else { None::<NodeId> }),
            forall|n: int| 0 <= n < mvs.len() ==> move_below(#[trigger] mvs[n], ta.kids.len() as int, tb.kids.len() as int, false),
        decreases ka.len() - (n0 + r),
    {
        let x = fa.unwrap();
        let ghost m1 = store@;
        let ghost ta1 = Tree { id: a, kids: ka };
        let ghost tb1 = Tree { id: b, kids: kb };
        proof {
            crate::equal::lemma_kid_ready(m1, ta1, n0 + r);
        }
        let Ghost(q) = compose_one(store, patches, rem.as_slice(), path.as_slice(), Some(digits.as_slice()), None, Ghost(ta1), Ghost(tb1));
        let ghost m2 = store@;
        proof {
            let st2 = seq![(op_remove(), patch_path(path@, Some(dec(n0 as nat))), None::<NodeId>)];
            assert(mvs[n0 + r] == Move::Remove(n0));
            lemma_flat_one(m2, ta1, tb1, path@, mvs[n0 + r], false, cs, *e);
            lemma_one_step(m0, m1, m2, ta, tb, ta1, tb1, patches, qs, q, path@, mvs, n0 + r, false, cs, *e, st2);
            crate::equal::lemma_kid_ready(m2, ta1, n0 + r);
            qs = qs + seq![q];
            r = r + 1;
        }
        fa = store.next(x);
    }
    let ghost mut t: int = 0;
    proof {
        assert(n0 + r == ka.len());
    }
    let add: Vec<u8> = vec![97u8, 100, 100];
    let dash: Vec<u8> = vec![45u8];
    while fb.is_some()
        invariant
            m0 == old(store)@,
            diff_ready(m0, ta, tb, patches),
            ta.id == a,
            tb.id == b,
            mvs == arr_moves(ta, tb),
            ka.len() == ta.kids.len(),
            kb.len() == tb.kids.len(),
            add@ == op_add(),
            dash@ == seq![45u8],
            n0 <= ka.len(),
            n0 <= kb.len(),
            n0 == ka.len() || n0 == kb.len(),
            0 <= t,
            n0 + t <= kb.len(),
            diff_post(m0, store@, ta, tb, Tree { id: a, kids: ka }, Tree { id: b, kids: kb }, patches, qs),
            patches_are(store@, qs, flat(store@, Tree { id: a, kids: ka }, Tree { id: b, kids: kb }, path@, mvs.take(ka.len() + t), false, cs, *e)),
            fb == (if n0 + t < kb.len() { Some(kb[n0 + t].id) } else { None::<NodeId> }),
            forall|n: int| 0 <= n < mvs.len() ==> move_below(#[trigger] mvs[n], ta.kids.len() as int, tb.kids.len() as int, false),
        decreases kb.len() - (n0 + t),
    {
        let y = fb.unwrap();
        let ghost m1 = store@;
        let ghost ta1 = Tree { id: a, kids: ka };
        let ghost tb1 = Tree { id: b, kids: kb };
        proof {
            crate::equal::lemma_kid_ready(m1, tb1, n0 + t);
            assert(tree_ids(kb[n0 + t])[0] == y);
            assert(tree_ids(kb[n0 + t]).contains(y));
        }
        let Ghost(q) = compose_one(store, patches, add.as_slice(), path.as_slice(), Some(dash.as_slice()), Some(y), Ghost(ta1), Ghost(tb1));
        let ghost m2 = store@;
        proof {
            let n = ka.len() + t;
            let st2 = seq![(op_add(), patch_path(path@, Some(seq![45u8])), Some(y))];
            assert(mvs[n] == Move::Add(n0 + t));
            lemma_flat_one(m2, ta1, tb1, path@, mvs[n], false, cs, *e);
            lemma_one_step(m0, m1, m2, ta, tb, ta1, tb1, patches, qs, q, path@, mvs, n, false, cs, *e, st2);
            crate::equal::lemma_kid_ready(m2, tb1, n0 + t);
            qs = qs + seq![q];
            t = t + 1;
        }
        fb = store.next(y);
    }
    proof {
        assert(mvs.take(mvs.len() as int) =~= mvs);
    }
    Ghost((Tree { id: a, kids: ka }, Tree { id: b, kids: kb }, qs))
}

/// The move at position `n` of a sequence whose rest from `n` is known.
pub proof fn lemma_skip_step(s: Seq<Move>, n: int, x: Move, rest: Seq<Move>)
    requires
        0 <= n <= s.len(),
        s.skip(n) == seq![x] + rest,
    ensures
        n < s.len(),
        s[n] == x,
        s.skip(n + 1) == rest,
{
    assert(s.skip(n).len() == rest.len() + 1);
    assert(s.skip(n)[0] == x);
    assert(s.skip(n + 1) =~= rest) by {
        assert forall|k: int| 0 <= k < rest.len() implies s.skip(n + 1)[k] == rest[k] by {
            assert(s.skip(n)[k + 1] == rest[k]);
        }
    }
}

/// The keys of the children stay as they were.
pub proof fn lemma_keys_kept(m0: StoreView, m: StoreView, ta: Tree, tb: Tree, ta1: Tree, tb1: Tree, patches: NodeId, qs: Seq<NodeId>, t: Tree, t1: Tree)
    requires
        diff_ready(m0, ta, tb, patches),
        base_post(m0, m, ta, tb, ta1, tb1, patches, qs),
        t == ta || t == tb,
        t1.kids.len() == t.kids.len(),
        forall|k: int| 0 <= k < t.kids.len() ==> #[trigger] t1.kids[k].id == t.kids[k].id,
    ensures
        forall|k: int| 0 <= k < t.kids.len() ==> #[trigger] m.key_of(t1.kids[k].id) == m0.key_of(t.kids[k].id),
{
    assert forall|k: int| 0 <= k < t.kids.len() implies #[trigger] m.key_of(t1.kids[k].id) == m0.key_of(t.kids[k].id) by {
        crate::equal::lemma_kid_ready(m0, t, k);
        assert(tree_ids(t.kids[k])[0] == t.kids[k].id);
        assert(tree_ids(t.kids[k]).contains(t.kids[k].id));
        assert(tree_ids(t).contains(t.kids[k].id));
        assert(crate::dup::handles_live(m0, t.kids[k].id));
        assert(same_data(m.nodes[t.kids[k].id], m0.nodes[t.kids[k].id]));
    }
}

/// What holds after `n` moves of the walk over the members of the objects `ta`, `tb`: the
/// first `i` members of `ta` and `j` of `tb` have been handled (now the trees `ka`, `kb`),
/// and the patches `qs` read as the steps of those moves.
spec fn cp_inv<E: Fn(u64, u64) -> bool>(m0: StoreView, m: StoreView, patches: NodeId, path: Seq<u8>, ta: Tree, tb: Tree,
    ka: Seq<Tree>, kb: Seq<Tree>, qs: Seq<NodeId>, i: int, j: int, n: int, cs: bool, e: E) -> bool {
    let w = obj_walk(m0, ta, tb, cs, 0, 0);
    &&& diff_ready(m0, ta, tb, patches)
    &&& eq_ok(e)
    &&& ka.len() == ta.kids.len()
    &&& kb.len() == tb.kids.len()
    &&& forall|k: int| 0 <= k < ka.len() ==> #[trigger] ka[k].id == ta.kids[k].id
    &&& forall|k: int| 0 <= k < kb.len() ==> #[trigger] kb[k].id == tb.kids[k].id
    &&& forall|k: int| i <= k < ka.len() ==> #[trigger] ka[k] == ta.kids[k]
    &&& forall|k: int| j <= k < kb.len() ==> #[trigger] kb[k] == tb.kids[k]
    &&& diff_post(m0, m, ta, tb, Tree { id: ta.id, kids: ka }, Tree { id: tb.id, kids: kb }, patches, qs)
    &&& 0 <= i <= ka.len()
    &&& 0 <= j <= kb.len()
    &&& 0 <= n <= w.len()
    &&& w.skip(n) == obj_walk(m0, ta, tb, cs, i, j)
    &&& forall|k: int| 0 <= k < n ==> move_below(#[trigger] w[k], i, j, true)
    &&& patches_are(m, qs, flat(m, Tree { id: ta.id, kids: ka }, Tree { id: tb.id, kids: kb }, path, w.take(n), true, cs, e))
}

/// One move of the walk that pairs the members `f` of `ta` and `t` of `tb` (equal keys):
/// their patches, under the path extended by the key.
#[verifier::spinoff_prover]
#[verifier::rlimit(100)]
fn cp_both_step<E: Fn(u64, u64) -> bool>(
    store: &mut SafeStore, patches: NodeId, path: &Vec<u8>, f: NodeId, t: NodeId, cs: bool, e: &E,
    Ghost(m0): Ghost<StoreView>, Ghost(ta): Ghost<Tree>, Ghost(tb): Ghost<Tree>, Ghost(ka): Ghost<Seq<Tree>>,
    Ghost(kb): Ghost<Seq<Tree>>, Ghost(qs): Ghost<Seq<NodeId>>, Ghost(i): Ghost<int>, Ghost(j): Ghost<int>,
    Ghost(n): Ghost<int>, Ghost(x): Ghost<Tree>, Ghost(y): Ghost<Tree>,
) -> (r: Ghost<(Seq<Tree>, Seq<Tree>, Seq<NodeId>)>)
    requires
        cp_inv(m0, old(store)@, patches, path@, ta, tb, ka, kb, qs, i, j, n, cs, *e),
        i < ka.len(),
        j < kb.len(),
        x == ka[i],
        y == kb[j],
        f == x.id,
        t == y.id,
        obj_walk(m0, ta, tb, cs, 0, 0).skip(n) == seq![Move::Both(i, j)] + obj_walk(m0, ta, tb, cs, i + 1, j + 1),
    ensures
        cp_inv(m0, final(store)@, patches, path@, ta, tb, r@.0, r@.1, r@.2, i + 1, j + 1, n + 1, cs, *e),
        final(store)@.live(f),
        final(store)@.live(t),
        final(store)@.nodes[f].next == (if i + 1 < ka.len() { Some(ka[i + 1].id) } else { None::<NodeId> }),
        final(store)@.nodes[t].next == (if j + 1 < kb.len() { Some(kb[j + 1].id) } else { None::<NodeId> }),
    decreases tsz(x) + tsz(y), 2nat,
{
    let ghost w = obj_walk(m0, ta, tb, cs, 0, 0);
    let ghost m1 = store@;
    let ghost ta1 = Tree { id: ta.id, kids: ka };
    let ghost tb1 = Tree { id: tb.id, kids: kb };
    proof {
        crate::equal::lemma_kid_ready(m1, ta1, i);
        crate::equal::lemma_kid_ready(m1, tb1, j);
    }
    let key: Vec<u8> = match crate::store::key_owned(store, f) {
        Some(k) => k,
        None => Vec::new(),
    };
    let np = join_path(path, key.as_slice());
    proof {
        lemma_kids_ready(m1, ta1, tb1, i, j, patches);
        lemma_skip_step(w, n, Move::Both(i, j), obj_walk(m0, ta, tb, cs, i + 1, j + 1));
    }
    let Ghost(res) = create_patches(store, patches, &np, f, t, cs, e, Ghost(ka[i]), Ghost(kb[j]));
    let ghost m2 = store@;
    proof {
        lemma_pair_step(m0, m1, m2, ta, tb, ta1, tb1, i, j, res.0, res.1, patches, qs, res.2, path@, np@, w, n, true, cs, *e);
        let ta2 = Tree { id: ta.id, kids: ka.update(i, res.0) };
        let tb2 = Tree { id: tb.id, kids: kb.update(j, res.1) };
        assert forall|k: int| 0 <= k < n + 1 implies move_below(#[trigger] w[k], i + 1, j + 1, true) by {
            if k < n { assert(move_below(w[k], i, j, true)); }
        }
        crate::equal::lemma_kid_ready(m2, ta2, i);
        crate::equal::lemma_kid_ready(m2, tb2, j);
    }
    Ghost((ka.update(i, res.0), kb.update(j, res.1), qs + res.2))
}

/// One move of the walk that removes the member `f` of `ta` (its key comes first).
#[verifier::spinoff_prover]
#[verifier::rlimit(100)]
fn cp_remove_step<E: Fn(u64, u64) -> bool>(
    store: &mut SafeStore, patches: NodeId, path: &Vec<u8>, rem: &Vec<u8>, f: NodeId, cs: bool, e: &E,
    Ghost(m0): Ghost<StoreView>, Ghost(ta): Ghost<Tree>, Ghost(tb): Ghost<Tree>, Ghost(ka): Ghost<Seq<Tree>>,
    Ghost(kb): Ghost<Seq<Tree>>, Ghost(qs): Ghost<Seq<NodeId>>, Ghost(i): Ghost<int>, Ghost(j): Ghost<int>,
    Ghost(n): Ghost<int>,
) -> (r: Ghost<Seq<NodeId>>)
    requires
        cp_inv(m0, old(store)@, patches, path@, ta, tb, ka, kb, qs, i, j, n, cs, *e),
        rem@ == op_remove(),
        i < ka.len(),
        f == ka[i].id,
        obj_walk(m0, ta, tb, cs, 0, 0).skip(n) == seq![Move::Remove(i)] + obj_walk(m0, ta, tb, cs, i + 1, j),
    ensures
        cp_inv(m0, final(store)@, patches, path@, ta, tb, ka, kb, r@, i + 1, j, n + 1, cs, *e),
        final(store)@.live(f),
        final(store)@.nodes[f].next == (if i + 1 < ka.len() { Some(ka[i + 1].id) } else { None::<NodeId> }),
{
    let ghost w = obj_walk(m0, ta, tb, cs, 0, 0);
    let ghost m1 = store@;
    let ghost ta1 = Tree { id: ta.id, kids: ka };
    let ghost tb1 = Tree { id: tb.id, kids: kb };
    proof {
        crate::equal::lemma_kid_ready(m1, ta1, i);
    }
    let key: Vec<u8> = match crate::store::key_owned(store, f) {
        Some(k) => k,
        None => Vec::new(),
    };
    proof {
        lemma_skip_step(w, n, Move::Remove(i), obj_walk(m0, ta, tb, cs, i + 1, j));
    }
    let Ghost(q) = compose_one(store, patches, rem.as_slice(), path.as_slice(), Some(key.as_slice()), None, Ghost(ta1), Ghost(tb1));
    let ghost m2 = store@;
    proof {
        let st2 = seq![(op_remove(), patch_path(path@, Some(key@)), None::<NodeId>)];
        lemma_reads_same_kid(m1, m2, ta1, i);
        lemma_flat_one(m2, ta1, tb1, path@, w[n], true, cs, *e);
        assert forall|k: int| 0 <= k < n implies move_below(#[trigger] w[k], ta1.kids.len() as int, tb1.kids.len() as int, true) by {
            assert(move_below(w[k], i, j, true));
        }
        lemma_one_step(m0, m1, m2, ta, tb, ta1, tb1, patches, qs, q, path@, w, n, true, cs, *e, st2);
        assert forall|k: int| 0 <= k < n + 1 implies move_below(#[trigger] w[k], i + 1, j, true) by {
            if k < n { assert(move_below(w[k], i, j, true)); }
        }
        crate::equal::lemma_kid_ready(m2, ta1, i);
    }
    Ghost(qs + seq![q])
}

/// One move of the walk that adds the member `t` of `tb` (its key comes first).
#[verifier::spinoff_prover]
#[verifier::rlimit(100)]
fn cp_add_step<E: Fn(u64, u64) -> bool>(
    store: &mut SafeStore, patches: NodeId, path: &Vec<u8>, add: &Vec<u8>, t: NodeId, cs: bool, e: &E,
    Ghost(m0): Ghost<StoreView>, Ghost(ta): Ghost<Tree>, Ghost(tb): Ghost<Tree>, Ghost(ka): Ghost<Seq<Tree>>,
    Ghost(kb): Ghost<Seq<Tree>>, Ghost(qs): Ghost<Seq<NodeId>>, Ghost(i): Ghost<int>, Ghost(j): Ghost<int>,
    Ghost(n): Ghost<int>,
) -> (r: Ghost<Seq<NodeId>>)
    requires
        cp_inv(m0, old(store)@, patches, path@, ta, tb, ka, kb, qs, i, j, n, cs, *e),
        add@ == op_add(),
        j < kb.len(),
        t == kb[j].id,
        obj_walk(m0, ta, tb, cs, 0, 0).skip(n) == seq![Move::Add(j)] + obj_walk(m0, ta, tb, cs, i, j + 1),
    ensures
        cp_inv(m0, final(store)@, patches, path@, ta, tb, ka, kb, r@, i, j + 1, n + 1, cs, *e),
        final(store)@.live(t),
        final(store)@.nodes[t].next == (if j + 1 < kb.len() { Some(kb[j + 1].id) } else { None::<NodeId> }),
{
    let ghost w = obj_walk(m0, ta, tb, cs, 0, 0);
    let ghost m1 = store@;
    let ghost ta1 = Tree { id: ta.id, kids: ka };
    let ghost tb1 = Tree { id: tb.id, kids: kb };
    proof {
        crate::equal::lemma_kid_ready(m1, tb1, j);
    }
    let key: Vec<u8> = match crate::store::key_owned(store, t) {
        Some(k) => k,
        None => Vec::new(),
    };
    proof {
        lemma_skip_step(w, n, Move::Add(j), obj_walk(m0, ta, tb, cs, i, j + 1));
        assert(tree_ids(kb[j])[0] == t);
        assert(tree_ids(kb[j]).contains(t));
    }
    let Ghost(q) = compose_one(store, patches, add.as_slice(), path.as_slice(), Some(key.as_slice()), Some(t), Ghost(ta1), Ghost(tb1));
    let ghost m2 = store@;
    proof {
        let st2 = seq![(op_add(), patch_path(path@, Some(key@)), Some(t))];
        lemma_reads_same_kid(m1, m2, tb1, j);
        lemma_flat_one(m2, ta1, tb1, path@, w[n], true, cs, *e);
        assert forall|k: int| 0 <= k < n implies move_below(#[trigger] w[k], ta1.kids.len() as int, tb1.kids.len() as int, true) by {
            assert(move_below(w[k], i, j, true));
        }
        lemma_one_step(m0, m1, m2, ta, tb, ta1, tb1, patches, qs, q, path@, w, n, true, cs, *e, st2);
        assert forall|k: int| 0 <= k < n + 1 implies move_below(#[trigger] w[k], i, j + 1, true) by {
            if k < n { assert(move_below(w[k], i, j, true)); }
        }
        crate::equal::lemma_kid_ready(m2, tb1, j);
    }
    Ghost(qs + seq![q])
}

/// Append the operations for the members of two objects, walked in key order.
#[verifier::spinoff_prover]
#[verifier::rlimit(100)]
fn cp_obj<E: Fn(u64, u64) -> bool>(
    store: &mut SafeStore,
    patches: NodeId,
    path: &Vec<u8>,
    a: NodeId,
    b: NodeId,
    cs: bool,
    e: &E,
    Ghost(ta): Ghost<Tree>,
    Ghost(tb): Ghost<Tree>,
) -> (r: Ghost<(Tree, Tree, Seq<NodeId>)>)
    requires
        diff_ready(old(store)@, ta, tb, patches),
        ta.id == a,
        tb.id == b,
        eq_ok(*e),
    ensures
        diff_post(old(store)@, final(store)@, ta, tb, r@.0, r@.1, patches, r@.2),
        patches_are(final(store)@, r@.2, flat(final(store)@, r@.0, r@.1, path@, obj_walk(final(store)@, r@.0, r@.1, cs, 0, 0), true, cs, *e)),
    decreases tsz(ta) + tsz(tb), 0nat,
{
    let ghost m0 = store@;
    let ghost w = obj_walk(m0, ta, tb, cs, 0, 0);
    let ghost mut ka = ta.kids;
    let ghost mut kb = tb.kids;
    let ghost mut qs: Seq<NodeId> = Seq::empty();
    let ghost mut i: int = 0;
    let ghost mut j: int = 0;
    let ghost mut n: int = 0;
    proof {
        lemma_dpost_refl(m0, ta, tb, patches);
        lemma_ready_root(m0, ta);
        lemma_ready_root(m0, tb);
        lemma_walk_below(m0, ta, tb, cs, 0, 0);
        assert(w.take(0) =~= Seq::<Move>::empty());
        assert(w.skip(0) =~= w);
        assert(flat(m0, ta, tb, path@, Seq::<Move>::empty(), true, cs, *e) =~= Seq::<Step>::empty());
        assert(cp_inv(m0, m0, patches, path@, ta, tb, ka, kb, qs, i, j, n, cs, *e));
    }
    let rem: Vec<u8> = vec![114u8, 101, 109, 111, 118, 101];
    let add: Vec<u8> = vec![97u8, 100, 100];
    let mut fa = store.child(a);
    let mut fb = store.child(b);
    while fa.is_some() || fb.is_some()
        invariant
            m0 == old(store)@,
            ta.id == a,
            tb.id == b,
            rem@ == op_remove(),
            add@ == op_add(),
            w == obj_walk(m0, ta, tb, cs, 0, 0),
            cp_inv(m0, store@, patches, path@, ta, tb, ka, kb, qs, i, j, n, cs, *e),
            fa == (if i < ka.len() { Some(ka[i].id) } else { None::<NodeId> }),
            fb == (if j < kb.len() { Some(kb[j].id) } else { None::<NodeId> }),
        decreases (ta.kids.len() - i) + (tb.kids.len() - j),
    {
        let ghost m1 = store@;
        let ghost ta1 = Tree { id: a, kids: ka };
        let ghost tb1 = Tree { id: b, kids: kb };
        proof {
            lemma_keys_kept(m0, m1, ta, tb, ta1, tb1, patches, qs, ta, ta1);
            lemma_keys_kept(m0, m1, ta, tb, ta1, tb1, patches, qs, tb, tb1);
            if i < ka.len() {
                crate::equal::lemma_kid_ready(m1, ta1, i);
            }
            if j < kb.len() {
                crate::equal::lemma_kid_ready(m1, tb1, j);
            }
        }
        let d: i32 = match (fa, fb) {
            (Some(f), Some(t)) => crate::utils::compare_strings(store.key_bytes(f), store.key_bytes(t), cs),
            (Some(_), None) => -1,
            _ => 1,
        };
        if d == 0 {
            let f = fa.unwrap();
            let t = fb.unwrap();
            proof {
                lemma_kid_smaller(ta, i);
                lemma_kid_smaller(tb, j);
                assert(ka[i] == ta.kids[i]);
                assert(kb[j] == tb.kids[j]);
                assert(w.skip(n) == seq![Move::Both(i, j)] + obj_walk(m0, ta, tb, cs, i + 1, j + 1));
            }
            let Ghost(st) = cp_both_step(store, patches, path, f, t, cs, e, Ghost(m0), Ghost(ta), Ghost(tb), Ghost(ka),
                Ghost(kb), Ghost(qs), Ghost(i), Ghost(j), Ghost(n), Ghost(ka[i]), Ghost(kb[j]));
            proof {
                ka = st.0;
                kb = st.1;
                qs = st.2;
                i = i + 1;
                j = j + 1;
                n = n + 1;
            }
            fa = store.next(f);
            fb = store.next(t);
        } else if d < 0 {
            let f = fa.unwrap();
            proof {
                assert(w.skip(n) == seq![Move::Remove(i)] + obj_walk(m0, ta, tb, cs, i + 1, j));
            }
            let Ghost(q2) = cp_remove_step(store, patches, path, &rem, f, cs, e, Ghost(m0), Ghost(ta), Ghost(tb), Ghost(ka),
                Ghost(kb), Ghost(qs), Ghost(i), Ghost(j), Ghost(n));
            proof {
                qs = q2;
                i = i + 1;
                n = n + 1;
            }
            fa = store.next(f);
        } else {
            let t = fb.unwrap();
            proof {
                assert(w.skip(n) == seq![Move::Add(j)] + obj_walk(m0, ta, tb, cs, i, j + 1));
            }
            let Ghost(q2) = cp_add_step(store, patches, path, &add, t, cs, e, Ghost(m0), Ghost(ta), Ghost(tb), Ghost(ka),
                Ghost(kb), Ghost(qs), Ghost(i), Ghost(j), Ghost(n));
            proof {
                qs = q2;
                j = j + 1;
                n = n + 1;
            }
            fb = store.next(t);
        }
    }
    proof {
        let ta1 = Tree { id: a, kids: ka };
        let tb1 = Tree { id: b, kids: kb };
        assert(w.skip(n) =~= Seq::<Move>::empty());
        assert(n == w.len());
        assert(w.take(n) =~= w);
        lemma_keys_kept(m0, store@, ta, tb, ta1, tb1, patches, qs, ta, ta1);
        lemma_keys_kept(m0, store@, ta, tb, ta1, tb1, patches, qs, tb, tb1);
        lemma_walk_frame(m0, store@, ta, tb, ta1, tb1, cs, 0, 0);
    }
    Ghost((Tree { id: a, kids: ka }, Tree { id: b, kids: kb }, qs))
}

/// What generating patches needs of the documents below `from` and `to`: ready for the
/// comparison, with live strings, and no node in both.
pub open spec fn gen_ready(m: StoreView, from: NodeId, to: NodeId) -> bool {
    &&& crate::equal::json_pair_ready(m, from, to)
    &&& strs_live(m, m.tree_of(from, false))
    &&& strs_live(m, m.tree_of(to, false))
}

/// The outcome of generating patches into the fresh array `p`: the documents are the trees
/// `ta1`, `tb1` over their nodes (the members of their objects sorted, nothing else of
/// them changed), no other node that was live changed, and the elements of `p` are patch
/// objects reading, one for one, as the operations that take `ta1` to `tb1`.
pub open spec fn gen_trees<E: Fn(u64, u64) -> bool>(before: StoreView, after: StoreView, from: NodeId, to: NodeId, p: NodeId, ta1: Tree, tb1: Tree, cs: bool, e: E) -> bool {
    let ta = before.tree_of(from, false);
    let tb = before.tree_of(to, false);
    &&& !before.live(p)
    &&& after.live(p)
    &&& spec_type_kind(after.nodes[p].ty) == ARRAY
    &&& listed(after, p)
    &&& ta1.id == from
    &&& tb1.id == to
    &&& forall|x: NodeId| #[trigger] tree_ids(ta1).contains(x) == tree_ids(ta).contains(x)
    &&& forall|x: NodeId| #[trigger] tree_ids(tb1).contains(x) == tree_ids(tb).contains(x)
    &&& cj_ready(after, ta1)
    &&& cj_ready(after, tb1)
    &&& forall|x: NodeId| #[trigger] before.live(x) ==> after.live(x)
    &&& forall|x: NodeId| before.live(x) && !tree_ids(ta).contains(x) && !tree_ids(tb).contains(x)
        ==> #[trigger] after.nodes[x] == before.nodes[x]
    &&& forall|x: NodeId| (tree_ids(ta).contains(x) || tree_ids(tb).contains(x)) ==> #[trigger] same_data(after.nodes[x], before.nodes[x])
    &&& after.nodes[from].next == before.nodes[from].next
    &&& after.nodes[from].prev == before.nodes[from].prev
    &&& after.nodes[to].next == before.nodes[to].next
    &&& after.nodes[to].prev == before.nodes[to].prev
    &&& strs_grow(before, after)
    &&& patches_are(after, after.children(p), diff(after, ta1, tb1, Seq::empty(), cs, e))
}

/// Some trees `ta1`, `tb1` are what generating patches into `p` left (see `gen_trees`).
pub open spec fn generated<E: Fn(u64, u64) -> bool>(before: StoreView, after: StoreView, from: NodeId, to: NodeId, p: NodeId, cs: bool, e: E) -> bool {
    exists|ta1: Tree, tb1: Tree| #[trigger] gen_trees(before, after, from, to, p, ta1, tb1, cs, e)
}

/// After the fresh array `p` was made, the documents are ready for generating patches
/// into it.
proof fn lemma_gen_start(m0: StoreView, m1: StoreView, from: NodeId, to: NodeId, p: NodeId)
    requires
        gen_ready(m0, from, to),
        crate::dom::created(m0, m1, Some(p), crate::dom::typed(ARRAY)),
        m1.slots_ok(),
    ensures
        diff_ready(m1, m0.tree_of(from, false), m0.tree_of(to, false), p),
        m1.children(p) == Seq::<NodeId>::empty(),
        spec_type_kind(m1.nodes[p].ty) == ARRAY,
{
    let ta = m0.tree_of(from, false);
    let tb = m0.tree_of(to, false);
    crate::tree::lemma_tree_is(m0, ta, false);
    lemma_ids_live(m0, ta);
    lemma_ids_live(m0, tb);
    assert forall|x: NodeId| #[trigger] tree_ids(ta).contains(x) implies m1.nodes[x] == m0.nodes[x] && m1.live(x) by {}
    assert forall|x: NodeId| #[trigger] tree_ids(tb).contains(x) implies m1.nodes[x] == m0.nodes[x] && m1.live(x) by {}
    lemma_ready_kept(m0, m1, ta);
    lemma_ready_kept(m0, m1, tb);
    assert(m1.is_chain(None, Seq::<NodeId>::empty()));
    crate::tree::lemma_chain_is(m1, None, Seq::<NodeId>::empty());
    assert((64i32 & 0xFF) == 64i32) by (bit_vector);
    assert((32i32 & 0xFF) == 32i32) by (bit_vector);
}

/// A fresh array of the patches (RFC 6902) that take
/// the value below `from` to the value below `to`, objects compared member by member in
/// key order after sorting both in place (`case_sensitive` chooses the key order), numbers
/// by `e` on their bits. `None`, the store unchanged, when allocation fails.
pub fn generate_patches<E: Fn(u64, u64) -> bool>(store: &mut SafeStore, from: NodeId, to: NodeId, case_sensitive: bool, e: &E) -> (r: Option<NodeId>)
    requires
        eq_ok(*e),
        gen_ready(old(store)@, from, to),
    ensures
        r is None <==> old(store)@.fail_allocs,
        r is None ==> final(store)@ == old(store)@,
        r matches Some(p) ==> generated(old(store)@, final(store)@, from, to, p, case_sensitive, *e),
{
    let ghost m0 = store@;
    let ghost ta = m0.tree_of(from, false);
    let ghost tb = m0.tree_of(to, false);
    let p = match crate::dom::create_array(store) {
        Some(p) => p,
        None => return None,
    };
    let ghost m1 = store@;
    proof {
        store.lemma_slots_ok();
        lemma_gen_start(m0, m1, from, to, p);
        crate::tree::lemma_tree_is(m0, ta, false);
        crate::tree::lemma_tree_is(m0, tb, false);
    }
    let path: Vec<u8> = Vec::new();
    let Ghost(res) = create_patches(store, p, &path, from, to, case_sensitive, e, Ghost(ta), Ghost(tb));
    proof {
        let m2 = store@;
        assert(m2.children(p) =~= res.2);
        assert(path@ =~= Seq::<u8>::empty());
        assert forall|x: NodeId| m0.live(x) && !tree_ids(ta).contains(x) && !tree_ids(tb).contains(x)
            implies #[trigger] m2.nodes[x] == m0.nodes[x] by {
            assert(m1.live(x));
            assert(x != p);
            assert(!m1.children(p).contains(x));
        }
        lemma_tree_contains(ta, from);
        lemma_tree_contains(tb, to);
        assert forall|x: NodeId| #[trigger] m0.live(x) implies m2.live(x) by {
            assert(m1.live(x));
        }
        assert(strs_grow(m0, m2)) by {
            assert forall|k: crate::store::StrId| #[trigger] m0.strings.contains_key(k) implies m2.strings.contains_key(k)
                && m2.strings[k] == m0.strings[k] by {
                assert(m1.strings.contains_key(k));
            }
        }
        assert(gen_trees(m0, m2, from, to, p, res.0, res.1, case_sensitive, *e));
    }
    Some(p)
}

/// Two documents that compare equal, pair by pair in their order (as `compare_json`
/// judges them once it has sorted them), need no patch.
pub proof fn law_equal_no_patches<E: Fn(u64, u64) -> bool>(m: StoreView, ta: Tree, tb: Tree, path: Seq<u8>, cs: bool, e: E)
    requires
        crate::equal::jeq(m, ta, tb, cs, e),
    ensures
        diff(m, ta, tb, path, cs, e) == Seq::<Step>::empty(),
    decreases tsz(ta) + tsz(tb), 2nat, 0nat,
{
    let k = spec_type_kind(m.nodes[ta.id].ty);
    if k == ARRAY {
        lemma_eq_kids_len(m, ta, tb, 0, false, cs, e);
        let am = arr_moves(ta, tb);
        assert forall|n: int| 0 <= n < am.len() implies #[trigger] am[n] == Move::Both(n, n) by {}
        lemma_flat_eq(m, ta, tb, path, am, false, cs, e);
    } else if k == OBJECT {
        lemma_eq_kids_len(m, ta, tb, 0, true, cs, e);
        lemma_walk_eq(m, ta, tb, cs, e, 0);
        let w = obj_walk(m, ta, tb, cs, 0, 0);
        lemma_flat_eq(m, ta, tb, path, w, true, cs, e);
    }
}

/// Children that compare equal pair by pair are as many on both sides.
proof fn lemma_eq_kids_len<E: Fn(u64, u64) -> bool>(m: StoreView, ta: Tree, tb: Tree, i: int, keyed: bool, cs: bool, e: E)
    requires
        0 <= i,
        crate::equal::jeq_kids(m, ta, tb, i, keyed, cs, e),
    ensures
        ta.kids.len() == tb.kids.len() || (i >= ta.kids.len() && i >= tb.kids.len()),
        forall|k: int| i <= k < ta.kids.len() ==> #[trigger] crate::equal::pair_eq(m, ta.kids[k], tb.kids[k], keyed, cs, e),
    decreases ta.kids.len() - i,
{
    if i < ta.kids.len() && i < tb.kids.len() {
        lemma_eq_kids_len(m, ta, tb, i + 1, keyed, cs, e);
        assert forall|k: int| i <= k < ta.kids.len() implies #[trigger] crate::equal::pair_eq(m, ta.kids[k], tb.kids[k], keyed, cs, e) by {
            if k == i {
            }
        }
    }
}

/// The walk over members that compare equal pair by pair pairs them in order.
proof fn lemma_walk_eq<E: Fn(u64, u64) -> bool>(m: StoreView, ta: Tree, tb: Tree, cs: bool, e: E, i: int)
    requires
        0 <= i <= ta.kids.len(),
        ta.kids.len() == tb.kids.len(),
        forall|k: int| 0 <= k < ta.kids.len() ==> #[trigger] crate::equal::pair_eq(m, ta.kids[k], tb.kids[k], true, cs, e),
    ensures
        forall|n: int| 0 <= n < obj_walk(m, ta, tb, cs, i, i).len() ==> #[trigger] obj_walk(m, ta, tb, cs, i, i)[n] == Move::Both(i + n, i + n),
    decreases ta.kids.len() - i,
{
    if i < ta.kids.len() {
        lemma_walk_eq(m, ta, tb, cs, e, i + 1);
        assert(crate::equal::pair_eq(m, ta.kids[i], tb.kids[i], true, cs, e));
        let x = m.key_of(ta.kids[i].id);
        let y = m.key_of(tb.kids[i].id);
        if cs {
            crate::utils::lemma_lex_antisym(x.unwrap(), y.unwrap());
        }
        assert(key_order(x, y, cs) == 0);
        let w = obj_walk(m, ta, tb, cs, i, i);
        assert(w == seq![Move::Both(i, i)] + obj_walk(m, ta, tb, cs, i + 1, i + 1));
        assert forall|n: int| 0 <= n < w.len() implies #[trigger] w[n] == Move::Both(i + n, i + n) by {
            if n > 0 {
                assert(w[n] == obj_walk(m, ta, tb, cs, i + 1, i + 1)[n - 1]);
            }
        }
    }
}

/// The operations of moves that pair children comparing equal are none.
proof fn lemma_flat_eq<E: Fn(u64, u64) -> bool>(m: StoreView, ta: Tree, tb: Tree, path: Seq<u8>, mvs: Seq<Move>, keyed: bool, cs: bool, e: E)
    requires
        ta.kids.len() == tb.kids.len(),
        forall|k: int| 0 <= k < ta.kids.len() ==> #[trigger] crate::equal::pair_eq(m, ta.kids[k], tb.kids[k], keyed, cs, e),
        forall|n: int| 0 <= n < mvs.len() ==> (#[trigger] mvs[n] matches Move::Both(i, j) && i == j),
    ensures
        flat(m, ta, tb, path, mvs, keyed, cs, e) == Seq::<Step>::empty(),
    decreases tsz(ta) + tsz(tb), 1nat, mvs.len(),
{
    if mvs.len() > 0 {
        let rest = mvs.drop_last();
        assert forall|n: int| 0 <= n < rest.len() implies (#[trigger] rest[n] matches Move::Both(i, j) && i == j) by {
            assert(rest[n] == mvs[n]);
        }
        lemma_flat_eq(m, ta, tb, path, rest, keyed, cs, e);
        assert(mvs[mvs.len() - 1] matches Move::Both(i, j) && i == j);
        if let Move::Both(i, j) = mvs.last() {
            if 0 <= i < ta.kids.len() && 0 <= j < tb.kids.len() {
                assert(crate::equal::pair_eq(m, ta.kids[i], tb.kids[i], keyed, cs, e));
                lemma_kid_smaller(ta, i);
                lemma_kid_smaller(tb, j);
                law_equal_no_patches(m, ta.kids[i], tb.kids[j], both_path(m, ta, path, i, keyed), cs, e);
            }
        }
    }
}

/// The decimal digits of `n`, as bytes.
pub fn dec_bytes(n: usize) -> (r: Vec<u8>)
    ensures
        r@ == dec(n as nat),
    decreases n,
{
    if n < 10 {
        let d: u8 = (48 + n) as u8;
        vec![d]
    } else {
        let mut v = dec_bytes(n / 10);
        let d: u8 = (48 + n % 10) as u8;
        v.push(d);
        v
    }
}

} // verus!
