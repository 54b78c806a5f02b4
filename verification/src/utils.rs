//! JSON Pointer lookups and key ordering over a [`SafeStore`].
use vstd::prelude::*;
use crate::store::{NodeId, SafeStore, StoreView};
use crate::tree::{Tree, tops, tree_ids, forest_ids};
use crate::types::{spec_type_kind, ARRAY, OBJECT};
use crate::pointer::{token_matches, array_index};
use crate::compare::{tree_ready, tsz, lemma_kid_smaller};

verus! {

/// The index of the first `/` from `i`, or the length.
pub open spec fn token_end(s: Seq<u8>, i: int) -> int
    decreases s.len() - i,
{
    if i < 0 || i >= s.len() || s[i] == 47 { i } else { token_end(s, i + 1) }
}

pub proof fn lemma_token_end(s: Seq<u8>, i: int)
    requires
        0 <= i <= s.len(),
    ensures
        i <= token_end(s, i) <= s.len(),
    decreases s.len() - i,
{
    if i < s.len() && s[i] != 47 {
        lemma_token_end(s, i + 1);
    }
}

/// The first child (of the trees `ts`) whose key the pointer token at the start of `q` names.
pub open spec fn token_child(m: StoreView, ts: Seq<Tree>, q: Seq<u8>, cs: bool, j: int) -> int
    decreases ts.len() - j,
{
    if j < 0 || j >= ts.len() {
        ts.len() as int
    } else if m.key_of(ts[j].id) is Some && token_matches(m.key_of(ts[j].id).unwrap(), q, cs) {
        j
    } else {
        token_child(m, ts, q, cs, j + 1)
    }
}

pub proof fn lemma_token_child(m: StoreView, ts: Seq<Tree>, q: Seq<u8>, cs: bool, j: int)
    requires
        0 <= j <= ts.len(),
    ensures
        j <= token_child(m, ts, q, cs, j) <= ts.len(),
    decreases ts.len() - j,
{
    if j < ts.len() {
        lemma_token_child(m, ts, q, cs, j + 1);
    }
}

/// The node a JSON Pointer leads to from the tree `t` (from position `i` of `p`): each
/// `/token` steps to an array element by index or an object member by key.
pub open spec fn ptr_walk(m: StoreView, t: Option<Tree>, p: Seq<u8>, i: int, cs: bool) -> Option<NodeId>
    decreases p.len() - i,
{
    match t {
        None => None,
        Some(t) => if i < 0 || i >= p.len() || p[i] != 47 {
            Some(t.id)
        } else {
            let q = p.subrange(i + 1, p.len() as int);
            let k = spec_type_kind(m.nodes[t.id].ty);
            let e = token_end(p, i + 1);
            proof { lemma_token_end(p, i + 1); }
            if k == ARRAY {
                match array_index(q) {
                    None => None,
                    Some(ix) => {
                        let j = ix as i32;
                        let next = if 0 <= j < t.kids.len() { Some(t.kids[j as int]) } else { None::<Tree> };
                        if e > i { ptr_walk(m, next, p, e, cs) } else { None }
                    },
                }
            } else if k == OBJECT {
                let f = token_child(m, t.kids, q, cs, 0);
                let next = if f < t.kids.len() { Some(t.kids[f]) } else { None::<Tree> };
                if e > i { ptr_walk(m, next, p, e, cs) } else { None }
            } else {
                None
            }
        },
    }
}

} // verus!

verus! {

/// One step of a pointer walk from the tree `t` at a `/`.
pub proof fn lemma_walk_step(m: StoreView, t: Tree, p: Seq<u8>, i: int, cs: bool)
    requires
        0 <= i < p.len(),
        p[i] == 47,
    ensures
        token_end(p, i + 1) > i,
        ptr_walk(m, Some(t), p, i, cs) == ({
            let q = p.subrange(i + 1, p.len() as int);
            let k = spec_type_kind(m.nodes[t.id].ty);
            let e = token_end(p, i + 1);
            if k == ARRAY {
                match array_index(q) {
                    None => None,
                    Some(ix) => {
                        let j = ix as i32;
                        ptr_walk(m, if 0 <= j < t.kids.len() { Some(t.kids[j as int]) } else { None::<Tree> }, p, e, cs)
                    },
                }
            } else if k == OBJECT {
                let f = token_child(m, t.kids, q, cs, 0);
                ptr_walk(m, if f < t.kids.len() { Some(t.kids[f]) } else { None::<Tree> }, p, e, cs)
            } else {
                None
            }
        }),
{
    lemma_token_end(p, i + 1);
}

/// The children of a tree node are the chain its `child` link starts.
proof fn lemma_tree_children(m: StoreView, t: Tree)
    requires
        tree_ready(m, t),
    ensures
        m.has_chain(m.nodes[t.id].child),
        m.children(t.id) == tops(t.kids),
        m.live(t.id),
        forall|i: int| 0 <= i < t.kids.len() ==> tree_ready(m, #[trigger] t.kids[i]),
        forall|i: int| 0 <= i < t.kids.len() ==> m.str_ok(m.nodes[#[trigger] t.kids[i].id].key),
{
    crate::tree::lemma_chain_is(m, m.nodes[t.id].child, tops(t.kids));
    assert(tree_ids(t)[0] == t.id);
    assert forall|i: int| 0 <= i < t.kids.len() implies tree_ready(m, #[trigger] t.kids[i]) by {
        crate::print::lemma_strs_ok_kid_pub(m, t, i);
    }
    assert forall|i: int| 0 <= i < t.kids.len() implies m.str_ok(m.nodes[#[trigger] t.kids[i].id].key) by {
        crate::print::lemma_strs_ok_kid_pub(m, t, i);
        assert(tree_ids(t.kids[i])[0] == t.kids[i].id);
        assert(tree_ids(t.kids[i]).contains(t.kids[i].id));
    }
}

/// The node a JSON Pointer leads to from `object`.
#[verifier::spinoff_prover]
#[verifier::rlimit(30)]
pub fn get_item_from_pointer(store: &SafeStore, object: Option<NodeId>, pointer: &[u8], case_sensitive: bool) -> (r: Option<NodeId>)
    requires
        object matches Some(o) ==> store@.has_tree(o, false) && crate::print::strs_ok(store@, store@.tree_of(o, false)),
    ensures
        r == ptr_walk(store@, match object { Some(o) => Some(store@.tree_of(o, false)), None => None::<Tree> },
            pointer@, 0, case_sensitive),
{
    let ghost m = store@;
    let ghost troot = match object { Some(o) => Some(m.tree_of(o, false)), None => None::<Tree> };
    let ghost mut tcur = troot;
    let mut current = object;
    let mut pos: usize = 0;
    while pos < pointer.len() && pointer[pos] == 47 && current.is_some()
        invariant
            m == store@,
            troot == (match object { Some(o) => Some(m.tree_of(o, false)), None => None::<Tree> }),
            pos <= pointer@.len(),
            current == (match tcur { Some(t) => Some(t.id), None => None::<NodeId> }),
            tcur matches Some(t) ==> tree_ready(m, t),
            ptr_walk(m, troot, pointer@, 0, case_sensitive) == ptr_walk(m, tcur, pointer@, pos as int, case_sensitive),
        decreases pointer@.len() - pos,
    {
        let ghost p0 = pos as int;
        let ghost t = tcur.unwrap();
        proof {
            lemma_tree_children(m, t);
            lemma_token_end(pointer@, p0 + 1);
            lemma_walk_step(m, t, pointer@, p0, case_sensitive);
        }
        pos += 1;
        let cur = current.unwrap();
        let q = crate::string::slice_range(pointer, pos, pointer.len());
        if crate::dom::is_array(store, Some(cur)) {
            let index = match crate::pointer::decode_array_index(q) {
                Some(ix) => ix,
                None => {
                    proof {
                        assert(q@ == pointer@.subrange(p0 + 1, pointer@.len() as int));
                        assert(ptr_walk(m, tcur, pointer@, p0, case_sensitive) is None);
                    }
                    return None;
                },
            };
            let j = index as i32;
            current = crate::dom::get_array_item(store, Some(cur), j);
            proof {
                tcur = if 0 <= j < t.kids.len() { Some(t.kids[j as int]) } else { None::<Tree> };
                if 0 <= j < t.kids.len() {
                    assert(tops(t.kids)[j as int] == t.kids[j as int].id);
                }
            }
        } else if crate::dom::is_object(store, Some(cur)) {
            let mut el = store.child(cur);
            let ghost mut k: int = 0;
            let ghost ts = t.kids;
            proof { lemma_token_child(m, ts, q@, case_sensitive, 0); }
            let mut found: Option<NodeId> = None;
            while el.is_some()
                invariant_except_break
                    found is None,
                invariant
                    m == store@,
                    ts == t.kids,
                    tree_ready(m, t),
                    forall|i: int| 0 <= i < ts.len() ==> m.str_ok(m.nodes[#[trigger] ts[i].id].key),
                    0 <= k <= ts.len(),
                    k <= token_child(m, ts, q@, case_sensitive, 0),
                    token_child(m, ts, q@, case_sensitive, 0) == token_child(m, ts, q@, case_sensitive, k),
                    el == (if k < ts.len() { Some(ts[k].id) } else { None::<NodeId> }),
                ensures
                    found is Some ==> k < ts.len() && found == Some(ts[k].id) && k == token_child(m, ts, q@, case_sensitive, 0),
                    found is None ==> k == ts.len() && token_child(m, ts, q@, case_sensitive, 0) == ts.len(),
                decreases ts.len() - k,
            {
                let e = el.unwrap();
                proof {
                    assert(tops(ts)[k] == e);
                    if k + 1 < ts.len() {
                        assert(tops(ts)[k + 1] == ts[k + 1].id);
                    }
                }
                if crate::pointer::compare_pointers(store.key_bytes(e), q, case_sensitive) {
                    found = Some(e);
                    break;
                }
                proof { lemma_token_child(m, ts, q@, case_sensitive, k + 1); }
                el = store.next(e);
                proof { k = k + 1; }
            }
            current = found;
            proof {
                tcur = if k < ts.len() { Some(ts[k]) } else { None::<Tree> };
            }
        } else {
            proof {
                assert(spec_type_kind(m.nodes[t.id].ty) != ARRAY);
                assert(spec_type_kind(m.nodes[t.id].ty) != OBJECT);
                assert(ptr_walk(m, tcur, pointer@, p0, case_sensitive) is None);
            }
            return None;
        }
        let ghost e = token_end(pointer@, p0 + 1);
        while pos < pointer.len() && pointer[pos] != 47
            invariant
                pos <= pointer@.len(),
                p0 + 1 <= pos,
                token_end(pointer@, p0 + 1) == token_end(pointer@, pos as int),
            decreases pointer@.len() - pos,
        {
            pos += 1;
        }
        proof {
            assert(pos == e);
        }
    }
    current
}

} // verus!

verus! {

/// The decimal digits of `n`.
pub open spec fn decimal(n: nat) -> Seq<u8>
    decreases n,
{
    if n < 10 { seq![(48 + n) as u8] } else { decimal(n / 10) + seq![(48 + n % 10) as u8] }
}

/// The decimal text of `n`.
pub fn decimal_text(n: usize) -> (r: Vec<u8>)
    ensures
        r@ == decimal(n as nat),
    decreases n,
{
    if n < 10 {
        let mut v: Vec<u8> = Vec::new();
        v.push((48 + n) as u8);
        v
    } else {
        let mut v = decimal_text(n / 10);
        v.push((48 + n % 10) as u8);
        v
    }
}

/// The path from the tree `t` to the node `target`, as
/// `find_pointer_from_object_to` builds it: `/index` through arrays, `/key` (encoded)
/// through objects; the first child leading there wins.
pub open spec fn find_path(m: StoreView, t: Tree, target: NodeId) -> Option<Seq<u8>>
    decreases tsz(t), 1nat, 0nat,
{
    if t.id == target { Some(Seq::empty()) } else { find_kids(m, t, 0, target) }
}

pub open spec fn find_kids(m: StoreView, t: Tree, i: int, target: NodeId) -> Option<Seq<u8>>
    decreases tsz(t), 0nat, t.kids.len() - i,
{
    if i < 0 || i >= t.kids.len() {
        None
    } else {
        proof { lemma_kid_smaller(t, i); }
        match find_path(m, t.kids[i], target) {
            Some(sub) => {
                let k = spec_type_kind(m.nodes[t.id].ty);
                if k == ARRAY {
                    Some(seq![47u8] + decimal(i as nat) + sub)
                } else if k == OBJECT {
                    let key = match m.key_of(t.kids[i].id) { Some(kb) => kb, None => Seq::<u8>::empty() };
                    Some(seq![47u8] + crate::pointer::encode_token(key) + sub)
                } else {
                    None
                }
            },
            None => find_kids(m, t, i + 1, target),
        }
    }
}

fn find_rec(store: &SafeStore, object: NodeId, target: NodeId, Ghost(t): Ghost<Tree>) -> (r: Option<Vec<u8>>)
    requires
        tree_ready(store@, t),
        t.id == object,
    ensures
        match r {
            Some(v) => find_path(store@, t, target) == Some(v@),
            None => find_path(store@, t, target) is None,
        },
    decreases tsz(t),
{
    let ghost m = store@;
    if object == target {
        let v: Vec<u8> = Vec::new();
        proof { assert(v@ =~= Seq::<u8>::empty()); }
        return Some(v);
    }
    proof { lemma_tree_children(m, t); }
    store.distinct_live_fit(Ghost(tops(t.kids)));
    let mut child = store.child(object);
    let mut child_index: usize = 0;
    while child.is_some()
        invariant
            m == store@,
            tree_ready(m, t),
            t.id == object,
            object != target,
            m.children(t.id) == tops(t.kids),
            forall|i: int| 0 <= i < t.kids.len() ==> tree_ready(m, #[trigger] t.kids[i]),
            forall|i: int| 0 <= i < t.kids.len() ==> m.str_ok(m.nodes[#[trigger] t.kids[i].id].key),
            t.kids.len() <= usize::MAX,
            child_index <= t.kids.len(),
            find_path(m, t, target) == find_kids(m, t, child_index as int, target),
            child == (if child_index < t.kids.len() { Some(t.kids[child_index as int].id) } else { None::<NodeId> }),
        decreases t.kids.len() - child_index,
    {
        let c = child.unwrap();
        let ghost k = child_index as int;
        proof {
            lemma_kid_smaller(t, k);
            assert(tops(t.kids)[k] == c);
            if k + 1 < t.kids.len() {
                assert(tops(t.kids)[k + 1] == t.kids[k + 1].id);
            }
            crate::tree::lemma_chain_is(m, m.nodes[t.id].child, tops(t.kids));
        }
        match find_rec(store, c, target, Ghost(t.kids[k])) {
            Some(sub) => {
                if crate::dom::is_array(store, Some(object)) {
                    let mut full: Vec<u8> = Vec::new();
                    full.push(47);
                    let digits = decimal_text(child_index);
                    crate::string::push_all(&mut full, &digits);
                    crate::string::push_all(&mut full, &sub);
                    proof { assert(full@ =~= seq![47u8] + decimal(k as nat) + sub@); }
                    return Some(full);
                }
                if crate::dom::is_object(store, Some(object)) {
                    let enc = match store.key_bytes(c) {
                        Some(kb) => crate::pointer::encode_string_as_pointer(kb),
                        None => {
                            let v: Vec<u8> = Vec::new();
                            proof { assert(crate::pointer::encode_token(Seq::<u8>::empty()) =~= v@); }
                            v
                        },
                    };
                    let mut full: Vec<u8> = Vec::new();
                    full.push(47);
                    crate::string::push_all(&mut full, &enc);
                    crate::string::push_all(&mut full, &sub);
                    proof {
                        let key = match m.key_of(c) { Some(kb) => kb, None => Seq::<u8>::empty() };
                        assert(full@ =~= seq![47u8] + crate::pointer::encode_token(key) + sub@);
                    }
                    return Some(full);
                }
                return None;
            },
            None => {},
        }
        child = store.next(c);
        child_index += 1;
    }
    None
}

/// The JSON Pointer from `object` to `target`.
pub fn find_pointer_from_object_to(store: &SafeStore, object: NodeId, target: NodeId) -> (r: Option<Vec<u8>>)
    requires
        store@.has_tree(object, false),
        crate::print::strs_ok(store@, store@.tree_of(object, false)),
    ensures
        match r {
            Some(v) => find_path(store@, store@.tree_of(object, false), target) == Some(v@),
            None => find_path(store@, store@.tree_of(object, false), target) is None,
        },
{
    find_rec(store, object, target, Ghost(store@.tree_of(object, false)))
}

} // verus!

verus! {

/// Lexicographic order of byte strings as -1, 0 or 1.
pub open spec fn lex(x: Seq<u8>, y: Seq<u8>) -> int
    decreases x.len(),
{
    if x.len() == 0 && y.len() == 0 {
        0
    } else if x.len() == 0 {
        -1
    } else if y.len() == 0 {
        1
    } else if x[0] < y[0] {
        -1
    } else if x[0] > y[0] {
        1
    } else {
        lex(x.drop_first(), y.drop_first())
    }
}

pub proof fn lemma_lex_antisym(x: Seq<u8>, y: Seq<u8>)
    ensures
        lex(x, y) == -lex(y, x),
        lex(x, y) == 0 <==> x == y,
    decreases x.len(),
{
    if x.len() > 0 && y.len() > 0 && x[0] == y[0] {
        lemma_lex_antisym(x.drop_first(), y.drop_first());
        if x.drop_first() == y.drop_first() {
            assert(x =~= seq![x[0]] + x.drop_first());
            assert(y =~= seq![y[0]] + y.drop_first());
        }
    }
    if x.len() == 0 && y.len() == 0 {
        assert(x =~= y);
    }
}

pub proof fn lemma_ci_antisym(a: Seq<u8>, b: Seq<u8>, i: int)
    ensures
        crate::types::ci_diff_from(a, b, i) == -crate::types::ci_diff_from(b, a, i),
    decreases a.len() - i,
{
    if 0 <= i && i < a.len() && i < b.len() && crate::types::spec_tolower(a[i]) == crate::types::spec_tolower(b[i]) {
        lemma_ci_antisym(a, b, i + 1);
    }
}

/// Key order: an absent string compares after everything (1); otherwise
/// bytewise, or ignoring ASCII case.
pub open spec fn key_order(a: Option<Seq<u8>>, b: Option<Seq<u8>>, cs: bool) -> int {
    match (a, b) {
        (Some(x), Some(y)) => if cs { lex(x, y) } else { crate::types::ci_diff_from(x, y, 0) },
        _ => 1,
    }
}

pub proof fn lemma_key_order_antisym(a: Option<Seq<u8>>, b: Option<Seq<u8>>, cs: bool)
    requires
        a is Some,
        b is Some,
    ensures
        key_order(a, b, cs) == -key_order(b, a, cs),
{
    lemma_lex_antisym(a.unwrap(), b.unwrap());
    lemma_ci_antisym(a.unwrap(), b.unwrap(), 0);
}

pub fn lex_bytes(x: &[u8], y: &[u8]) -> (r: i32)
    ensures
        r == lex(x@, y@),
{
    let mut i: usize = 0;
    proof {
        assert(x@.subrange(0, x@.len() as int) =~= x@);
        assert(y@.subrange(0, y@.len() as int) =~= y@);
    }
    while i < x.len() && i < y.len()
        invariant
            i <= x@.len(),
            i <= y@.len(),
            lex(x@, y@) == lex(x@.subrange(i as int, x@.len() as int), y@.subrange(i as int, y@.len() as int)),
        decreases x.len() - i,
    {
        let ghost xr = x@.subrange(i as int, x@.len() as int);
        let ghost yr = y@.subrange(i as int, y@.len() as int);
        proof {
            assert(xr[0] == x@[i as int]);
            assert(yr[0] == y@[i as int]);
        }
        if x[i] < y[i] {
            return -1;
        }
        if x[i] > y[i] {
            return 1;
        }
        proof {
            assert(xr.drop_first() =~= x@.subrange(i + 1, x@.len() as int));
            assert(yr.drop_first() =~= y@.subrange(i + 1, y@.len() as int));
        }
        i += 1;
    }
    if x.len() == i && y.len() == i {
        0
    } else if x.len() == i {
        -1
    } else {
        1
    }
}

pub fn compare_strings(a: Option<&[u8]>, b: Option<&[u8]>, case_sensitive: bool) -> (r: i32)
    ensures
        r == key_order(crate::types::opt_bytes(a), crate::types::opt_bytes(b), case_sensitive),
{
    match (a, b) {
        (Some(x), Some(y)) => {
            if case_sensitive {
                lex_bytes(x, y)
            } else {
                crate::types::case_insensitive_strcmp(a, b)
            }
        },
        _ => 1,
    }
}

} // verus!

verus! {

/// The nodes of the chain from `head`, collected in order.
fn collect_list(store: &SafeStore, head: Option<NodeId>) -> (r: Vec<NodeId>)
    requires
        store@.has_chain(head),
    ensures
        r@ == store@.chain(head),
{
    let ghost s = store@.chain(head);
    proof { crate::tree::lemma_chain_is(store@, head, s); }
    let mut v: Vec<NodeId> = Vec::new();
    let mut c = head;
    while c.is_some()
        invariant
            store@.is_chain(head, s),
            v@.len() <= s.len(),
            v@ == s.subrange(0, v@.len() as int),
            c == (if v@.len() < s.len() { Some(s[v@.len() as int]) } else { None::<NodeId> }),
        decreases s.len() - v@.len(),
    {
        let n = c.unwrap();
        v.push(n);
        proof { assert(v@ =~= s.subrange(0, v@.len() as int)); }
        c = store.next(n);
    }
    proof { assert(v@ =~= s); }
    v
}

/// The store with the nodes `s` linked in that order: no `prev` on the first, no `next` on
/// the last.
pub open spec fn relinked(m: StoreView, s: Seq<NodeId>) -> StoreView {
    StoreView {
        nodes: Map::new(
            |id: NodeId| m.nodes.contains_key(id),
            |id: NodeId| if s.contains(id) {
                let i = s.index_of(id);
                crate::store::NodeData {
                    prev: if i == 0 { None } else { Some(s[i - 1]) },
                    next: if i + 1 == s.len() { None } else { Some(s[i + 1]) },
                    ..m.nodes[id]
                }
            } else {
                m.nodes[id]
            },
        ),
        ..m
    }
}

fn relink(store: &mut SafeStore, nodes: &Vec<NodeId>)
    requires
        nodes@.no_duplicates(),
        forall|i: int| 0 <= i < nodes@.len() ==> old(store)@.live(#[trigger] nodes@[i]),
    ensures
        final(store)@ == relinked(old(store)@, nodes@),
{
    let ghost m = store@;
    let ghost s = nodes@;
    let mut i: usize = 0;
    while i < nodes.len()
        invariant
            s == nodes@,
            s.no_duplicates(),
            forall|k: int| 0 <= k < s.len() ==> m.live(#[trigger] s[k]),
            i <= s.len(),
            store@.nodes.dom() == m.nodes.dom(),
            store@.strings == m.strings,
            store@.str_slots == m.str_slots,
            store@.fail_allocs == m.fail_allocs,
            forall|id: NodeId| #[trigger] store@.nodes.contains_key(id) ==> store@.nodes[id] == (
                if s.subrange(0, i as int).contains(id) { relinked(m, s).nodes[id] } else { m.nodes[id] }),
        decreases nodes.len() - i,
    {
        let n = nodes[i];
        let pv = if i == 0 { None } else { Some(nodes[i - 1]) };
        let nx = if i + 1 == nodes.len() { None } else { Some(nodes[i + 1]) };
        let ghost before = store@;
        store.set_prev(n, pv);
        store.set_next(n, nx);
        proof {
            assert(s.index_of(n) == i) by {
                assert(s[i as int] == n);
            }
            let s0 = s.subrange(0, i as int);
            let s1 = s.subrange(0, i + 1);
            assert forall|id: NodeId| #[trigger] store@.nodes.contains_key(id) implies store@.nodes[id] == (
                if s1.contains(id) { relinked(m, s).nodes[id] } else { m.nodes[id] }) by {
                if id == n {
                    assert(s1[i as int] == n);
                    assert(!s0.contains(n)) by {
                        if s0.contains(n) {
                            let k = choose|k: int| 0 <= k < s0.len() && s0[k] == n;
                            assert(s[k] == s[i as int]);
                        }
                    }
                } else {
                    assert(s1.contains(id) == s0.contains(id)) by {
                        if s1.contains(id) {
                            let k = choose|k: int| 0 <= k < s1.len() && s1[k] == id;
                            assert(k < i);
                            assert(s0[k] == id);
                        }
                        if s0.contains(id) {
                            let k = choose|k: int| 0 <= k < s0.len() && s0[k] == id;
                            assert(s1[k] == id);
                        }
                    }
                }
            }
        }
        i += 1;
    }
    proof {
        assert(s.subrange(0, s.len() as int) =~= s);
        assert(store@.nodes =~= relinked(m, s).nodes);
    }
}

/// Consecutive nodes of `s` are in order of their keys.
pub open spec fn keys_sorted(m: StoreView, s: Seq<NodeId>, cs: bool) -> bool {
    forall|i: int| 0 <= i < s.len() - 1 ==> #[trigger] key_order(m.key_of(s[i]), m.key_of(s[i + 1]), cs) <= 0
}

/// Consecutive nodes of `s` have strictly increasing keys.
pub open spec fn keys_ascending(m: StoreView, s: Seq<NodeId>, cs: bool) -> bool {
    forall|i: int| 0 <= i < s.len() - 1 ==> #[trigger] key_order(m.key_of(s[i]), m.key_of(s[i + 1]), cs) < 0
}

/// Every node of `s` has a live key.
pub open spec fn all_keyed(m: StoreView, s: Seq<NodeId>) -> bool {
    forall|i: int| 0 <= i < s.len() ==> m.key_of(#[trigger] s[i]) is Some
}

/// `r` holds the nodes of `s`, each once.
pub open spec fn same_nodes(r: Seq<NodeId>, s: Seq<NodeId>) -> bool {
    &&& r.len() == s.len()
    &&& r.no_duplicates()
    &&& forall|x: NodeId| r.contains(x) <==> s.contains(x)
}

proof fn lemma_insert_same_nodes(o: Seq<NodeId>, pre: Seq<NodeId>, x: NodeId, j: int)
    requires
        same_nodes(o, pre),
        !pre.contains(x),
        0 <= j <= o.len(),
    ensures
        same_nodes(o.insert(j, x), pre.push(x)),
{
    let out = o.insert(j, x);
    let post = pre.push(x);
    assert forall|y: NodeId| out.contains(y) <==> post.contains(y) by {
        if out.contains(y) {
            let k = choose|k: int| 0 <= k < out.len() && out[k] == y;
            if k < j { assert(o[k] == y); assert(o.contains(y)); assert(pre.contains(y)); let q = choose|q: int| 0 <= q < pre.len() && pre[q] == y; assert(post[q] == y); }
            else if k > j { assert(o[k - 1] == y); assert(o.contains(y)); assert(pre.contains(y)); let q = choose|q: int| 0 <= q < pre.len() && pre[q] == y; assert(post[q] == y); }
            else { assert(post[pre.len() as int] == x); }
        }
        if post.contains(y) {
            let q = choose|q: int| 0 <= q < post.len() && post[q] == y;
            if q == pre.len() {
                assert(out[j] == x);
            } else {
                assert(pre[q] == y);
                assert(pre.contains(y));
                assert(o.contains(y));
                let k = choose|k: int| 0 <= k < o.len() && o[k] == y;
                if k < j { assert(out[k] == y); } else { assert(out[k + 1] == y); }
            }
        }
    }
    assert(!o.contains(x));
    assert(out.no_duplicates()) by {
        assert forall|a: int, b: int| 0 <= a < b < out.len() implies out[a] != out[b] by {
            if a == j {
                assert(o[b - 1] == out[b]);
                assert(o.contains(out[b]));
            } else if b == j {
                assert(o[a] == out[a]);
                assert(o.contains(out[a]));
            } else {
                let aa = if a < j { a } else { a - 1 };
                let bb = if b < j { b } else { b - 1 };
                assert(o[aa] == out[a]);
                assert(o[bb] == out[b]);
            }
        }
    }
}

proof fn lemma_insert_sorted(m: StoreView, o: Seq<NodeId>, x: NodeId, j: int, cs: bool)
    requires
        keys_sorted(m, o, cs),
        all_keyed(m, o),
        m.key_of(x) is Some,
        0 <= j <= o.len(),
        forall|k: int| 0 <= k < j ==> key_order(m.key_of(x), m.key_of(#[trigger] o[k]), cs) >= 0,
        j < o.len() ==> key_order(m.key_of(x), m.key_of(o[j]), cs) < 0,
    ensures
        keys_sorted(m, o.insert(j, x), cs),
{
    let out = o.insert(j, x);
    assert forall|k: int| 0 <= k < out.len() - 1 implies #[trigger] key_order(m.key_of(out[k]), m.key_of(out[k + 1]), cs) <= 0 by {
        if k + 1 == j {
            assert(out[k] == o[k]);
            assert(out[k + 1] == x);
            assert(key_order(m.key_of(x), m.key_of(o[k]), cs) >= 0);
            lemma_key_order_antisym(m.key_of(x), m.key_of(o[k]), cs);
        } else if k == j {
            assert(out[k] == x);
            assert(out[k + 1] == o[k]);
        } else if k < j {
            assert(out[k] == o[k]);
            assert(out[k + 1] == o[k + 1]);
            assert(key_order(m.key_of(o[k]), m.key_of(o[k + 1]), cs) <= 0);
        } else {
            assert(out[k] == o[k - 1]);
            assert(out[k + 1] == o[k]);
            let kk = k - 1;
            assert(key_order(m.key_of(o[kk]), m.key_of(o[kk + 1]), cs) <= 0);
        }
    }
}

/// Stable insertion sort of the nodes by key.
fn sort_nodes(store: &SafeStore, nodes: &Vec<NodeId>, cs: bool) -> (r: Vec<NodeId>)
    requires
        nodes@.no_duplicates(),
        forall|i: int| 0 <= i < nodes@.len() ==> store@.live(#[trigger] nodes@[i]) && store@.str_ok(store@.nodes[nodes@[i]].key),
    ensures
        same_nodes(r@, nodes@),
        all_keyed(store@, nodes@) ==> keys_sorted(store@, r@, cs),
{
    let ghost m = store@;
    let ghost s = nodes@;
    let mut out: Vec<NodeId> = Vec::new();
    let mut i: usize = 0;
    while i < nodes.len()
        invariant
            m == store@,
            s == nodes@,
            s.no_duplicates(),
            forall|k: int| 0 <= k < s.len() ==> m.live(#[trigger] s[k]) && m.str_ok(m.nodes[s[k]].key),
            i <= s.len(),
            same_nodes(out@, s.subrange(0, i as int)),
            forall|k: int| 0 <= k < out@.len() ==> m.live(#[trigger] out@[k]) && m.str_ok(m.nodes[out@[k]].key),
            all_keyed(m, s) ==> keys_sorted(m, out@, cs),
        decreases nodes.len() - i,
    {
        let x = nodes[i];
        let kx = store.key_bytes(x);
        let mut j: usize = 0;
        while j < out.len()
            invariant
                m == store@,
                j <= out@.len(),
                crate::types::opt_bytes(kx) == m.key_of(x),
                forall|k: int| 0 <= k < out@.len() ==> m.live(#[trigger] out@[k]) && m.str_ok(m.nodes[out@[k]].key),
                forall|k: int| 0 <= k < j ==> key_order(m.key_of(x), m.key_of(#[trigger] out@[k]), cs) >= 0,
            ensures
                j <= out@.len(),
                forall|k: int| 0 <= k < j ==> key_order(m.key_of(x), m.key_of(#[trigger] out@[k]), cs) >= 0,
                j < out@.len() ==> key_order(m.key_of(x), m.key_of(out@[j as int]), cs) < 0,
            decreases out.len() - j,
        {
            if compare_strings(kx, store.key_bytes(out[j]), cs) < 0 {
                break;
            }
            j += 1;
        }
        let ghost old_out = out@;
        out.insert(j, x);
        proof {
            let pre = s.subrange(0, i as int);
            let post = s.subrange(0, i + 1);
            assert(post =~= pre.push(x));
            assert(!pre.contains(x)) by {
                if pre.contains(x) {
                    let k = choose|k: int| 0 <= k < pre.len() && pre[k] == x;
                    assert(s[k] == s[i as int]);
                }
            }
            assert(out@ =~= old_out.insert(j as int, x));
            lemma_insert_same_nodes(old_out, pre, x, j as int);
            assert forall|k: int| 0 <= k < out@.len() implies m.live(#[trigger] out@[k]) && m.str_ok(m.nodes[out@[k]].key) by {
                if k < j { assert(out@[k] == old_out[k]); }
                else if k > j { assert(out@[k] == old_out[k - 1]); }
                else { assert(s[i as int] == x); }
            }
            if all_keyed(m, s) {
                assert(m.key_of(x) is Some) by { assert(s[i as int] == x); }
                assert(all_keyed(m, old_out)) by {
                    assert forall|k: int| 0 <= k < old_out.len() implies m.key_of(#[trigger] old_out[k]) is Some by {
                        assert(old_out.contains(old_out[k]));
                        assert(pre.contains(old_out[k]));
                        let q = choose|q: int| 0 <= q < pre.len() && pre[q] == old_out[k];
                        assert(s[q] == old_out[k]);
                    }
                }
                lemma_insert_sorted(m, old_out, x, j as int, cs);
            }
        }
        i += 1;
    }
    proof { assert(s.subrange(0, s.len() as int) =~= s); }
    out
}

} // verus!

verus! {

/// A node of a chain: live, and linked to the next one.
pub proof fn lemma_chain_step(m: StoreView, head: Option<NodeId>, k: int)
    requires
        m.has_chain(head),
        0 <= k < m.chain(head).len(),
    ensures
        m.live(m.chain(head)[k]),
        m.nodes[m.chain(head)[k]].next == (if k + 1 < m.chain(head).len() { Some(m.chain(head)[k + 1]) } else { None::<NodeId> }),
{
    let s = m.chain(head);
    assert(m.is_chain(head, s));
    assert(s[s.len() - 1] == s.last());
}

/// The keys of the chain from `head` can be read.
pub open spec fn chain_keys_ok(m: StoreView, head: Option<NodeId>) -> bool {
    m.has_chain(head) && forall|i: int| 0 <= i < m.chain(head).len() ==> m.str_ok(m.nodes[#[trigger] m.chain(head)[i]].key)
}

/// The outcome of sorting the chain `s` into `res`: the same nodes, relinked in that order,
/// in key order when every node has a key.
pub open spec fn sorted_into(before: StoreView, after: StoreView, s: Seq<NodeId>, res: Seq<NodeId>, cs: bool) -> bool {
    &&& same_nodes(res, s)
    &&& after == relinked(before, res)
    &&& all_keyed(before, s) ==> keys_sorted(before, res, cs)
}

/// The list from `list` in key order (a stable sort); a list of one
/// node, or already strictly ascending, is left as it is. Returns the new head.
pub fn sort_list(store: &mut SafeStore, list: Option<NodeId>, case_sensitive: bool) -> (r: Option<NodeId>)
    requires
        chain_keys_ok(old(store)@, list),
    ensures
        list is None ==> r is None && final(store)@ == old(store)@,
        list is Some ==> ({
            let s = old(store)@.chain(list);
            if s.len() == 1 || keys_ascending(old(store)@, s, case_sensitive) {
                r == list && final(store)@ == old(store)@
            } else {
                exists|res: Seq<NodeId>| #[trigger] sorted_into(old(store)@, final(store)@, s, res, case_sensitive)
                    && res.len() > 0 && r == Some(res[0])
            }
        }),
{
    let head = match list {
        Some(h) => h,
        None => return None,
    };
    let ghost m = store@;
    let ghost s = m.chain(list);
    proof { crate::tree::lemma_chain_is(m, list, s); }
    if store.next(head).is_none() {
        return Some(head);
    }
    let mut current = head;
    let ghost mut k: int = 0;
    let mut sorted = true;
    loop
        invariant_except_break
            sorted,
        invariant
            m == store@,
            m.has_chain(list),
            s == m.chain(list),
            forall|i: int| 0 <= i < s.len() ==> m.str_ok(m.nodes[#[trigger] s[i]].key),
            0 <= k < s.len(),
            current == s[k],
            forall|i: int| 0 <= i < k ==> #[trigger] key_order(m.key_of(s[i]), m.key_of(s[i + 1]), case_sensitive) < 0,
        ensures
            sorted == keys_ascending(m, s, case_sensitive),
        decreases s.len() - k,
    {
        proof { lemma_chain_step(m, list, k); }
        match store.next(current) {
            Some(n) => {
                proof { assert(n == s[k + 1]); }
                if compare_strings(store.key_bytes(current), store.key_bytes(n), case_sensitive) >= 0 {
                    sorted = false;
                    break;
                }
                current = n;
                proof { k = k + 1; }
            },
            None => {
                proof { assert(k == s.len() - 1); }
                break;
            },
        }
    }
    if sorted {
        return Some(head);
    }
    let nodes = collect_list(store, list);
    let res = sort_nodes(store, &nodes, case_sensitive);
    proof {
        assert forall|i: int| 0 <= i < res@.len() implies store@.live(#[trigger] res@[i]) by {
            assert(res@.contains(res@[i]));
            assert(s.contains(res@[i]));
        }
    }
    relink(store, &res);
    proof {
        assert(sorted_into(m, store@, s, res@, case_sensitive));
    }
    Some(res[0])
}

/// Sort the members of `object` by key.
pub fn sort_object(store: &mut SafeStore, object: NodeId, case_sensitive: bool)
    requires
        old(store)@.live(object),
        chain_keys_ok(old(store)@, old(store)@.nodes[object].child),
    ensures
        ({
            let s = old(store)@.chain(old(store)@.nodes[object].child);
            if s.len() <= 1 || keys_ascending(old(store)@, s, case_sensitive) {
                final(store)@ == old(store)@.with_node(object, old(store)@.nodes[object])
            } else {
                exists|res: Seq<NodeId>| #[trigger] sorted_into(old(store)@, relinked(old(store)@, res), s, res, case_sensitive)
                    && res.len() > 0
                    && final(store)@ == relinked(old(store)@, res).with_node(object,
                        crate::store::NodeData { child: Some(res[0]), ..relinked(old(store)@, res).nodes[object] })
            }
        }),
{
    let c = store.child(object);
    let sorted = sort_list(store, c, case_sensitive);
    store.set_child(object, sorted);
    proof {
        let m = old(store)@;
        let s = m.chain(c);
        if c is None {
            crate::tree::lemma_chain_is(m, c, Seq::<NodeId>::empty());
        }
    }
}

} // verus!

verus! {

/// The children of a tree node are the chain its `child` link starts.
pub proof fn lemma_tree_children_pub(m: StoreView, t: Tree)
    requires
        tree_ready(m, t),
    ensures
        m.has_chain(m.nodes[t.id].child),
        m.children(t.id) == tops(t.kids),
        m.live(t.id),
        forall|i: int| 0 <= i < t.kids.len() ==> tree_ready(m, #[trigger] t.kids[i]),
        forall|i: int| 0 <= i < t.kids.len() ==> m.str_ok(m.nodes[#[trigger] t.kids[i].id].key),
{
    lemma_tree_children(m, t);
}

} // verus!

verus! {

/// Every node of a valid tree is live.
pub proof fn lemma_tree_ids_live(m: StoreView, t: Tree, id: NodeId)
    requires
        tree_ready(m, t),
        tree_ids(t).contains(id),
    ensures
        m.live(id),
    decreases t,
{
    assert(tree_ids(t) == seq![t.id] + crate::tree::forest_ids(t.kids));
    if id != t.id {
        let j = choose|j: int| 0 <= j < tree_ids(t).len() && tree_ids(t)[j] == id;
        assert(crate::tree::forest_ids(t.kids).contains(id)) by {
            assert(crate::tree::forest_ids(t.kids)[j - 1] == id);
        }
        let i = crate::utils::lemma_forest_which(t.kids, id);
        lemma_tree_children(m, t);
        lemma_tree_ids_live(m, t.kids[i], id);
    } else {
        lemma_tree_children(m, t);
    }
}

/// The tree of a forest that holds an id.
pub proof fn lemma_forest_which(ts: Seq<Tree>, id: NodeId) -> (i: int)
    requires
        crate::tree::forest_ids(ts).contains(id),
    ensures
        0 <= i < ts.len(),
        tree_ids(ts[i]).contains(id),
    decreases ts.len(),
{
    assert(crate::tree::forest_ids(ts) == tree_ids(ts[0]) + crate::tree::forest_ids(ts.drop_first()));
    let j = choose|j: int| 0 <= j < crate::tree::forest_ids(ts).len() && crate::tree::forest_ids(ts)[j] == id;
    if j < tree_ids(ts[0]).len() {
        assert(tree_ids(ts[0])[j] == id);
        0
    } else {
        assert(crate::tree::forest_ids(ts.drop_first())[j - tree_ids(ts[0]).len()] == id);
        let k = lemma_forest_which(ts.drop_first(), id);
        assert(ts.drop_first()[k] == ts[k + 1]);
        k + 1
    }
}

} // verus!

verus! {

/// The node a pointer walk reaches is a node of the tree it starts from.
pub proof fn lemma_walk_in_tree(m: StoreView, t: Tree, p: Seq<u8>, i: int, cs: bool)
    requires
        ptr_walk(m, Some(t), p, i, cs) is Some,
    ensures
        tree_ids(t).contains(ptr_walk(m, Some(t), p, i, cs).unwrap()),
    decreases p.len() - i,
{
    let x = ptr_walk(m, Some(t), p, i, cs).unwrap();
    assert(tree_ids(t)[0] == t.id);
    if !(i < 0 || i >= p.len() || p[i] != 47) {
        lemma_walk_step(m, t, p, i, cs);
        let q = p.subrange(i + 1, p.len() as int);
        let k = spec_type_kind(m.nodes[t.id].ty);
        let e = token_end(p, i + 1);
        lemma_token_end(p, i + 1);
        let j: int = if k == ARRAY {
            let ix = array_index(q).unwrap();
            let jj = ix as i32;
            assert(0 <= jj < t.kids.len());
            jj as int
        } else {
            assert(k == OBJECT);
            lemma_token_child(m, t.kids, q, cs, 0);
            let f = token_child(m, t.kids, q, cs, 0);
            if f >= t.kids.len() {
                assert(ptr_walk(m, None::<Tree>, p, e, cs) is None);
            }
            f
        };
        assert(0 <= j < t.kids.len());
        lemma_walk_in_tree(m, t.kids[j], p, e, cs);
        crate::tree::lemma_kids_in_ids(t.kids, j);
        assert(forest_ids(t.kids).contains(x));
        let idx = choose|idx: int| 0 <= idx < forest_ids(t.kids).len() && forest_ids(t.kids)[idx] == x;
        assert(tree_ids(t)[idx + 1] == x);
    }
}

} // verus!
