//! Recursive-descent JSON parser.
use vstd::prelude::*;
use crate::store::{NodeId, StrId, SafeStore, NodeData, StoreView};
use crate::tree::{Tree, tops, forest_ids, tree_ids};
use crate::number::{spec_parse_number, num_parse_ok, is_digit};
use crate::string::spec_parse_string;
use crate::types::{NULL, FALSE, TRUE, NUMBER, STRING, ARRAY, OBJECT, NESTING_LIMIT};

verus! {

/// Options of a parse: whether only whitespace and a NUL may follow the value, and the
/// decimal point of the locale (the number conversion takes care of it).
#[derive(Clone, Copy, Debug)]
pub struct ParseOpts {
    pub require_null_terminated: bool,
    pub decimal_point: u8,
}

impl ParseOpts {
    pub fn default() -> (r: ParseOpts)
        ensures
            !r.require_null_terminated,
            r.decimal_point == 46,
    {
        ParseOpts { require_null_terminated: false, decimal_point: 46 }
    }
}

/// Where a parse failed.
#[derive(Clone, Copy, Debug)]
pub struct ParseError {
    pub offset: usize,
}

/// A JSON value as the parser builds it. A number holds the IEEE-754 bits of its double
/// and its value saturated to `i32`.
pub enum JsonValue {
    Null,
    False,
    True,
    Number { bits: u64, saturated: i32 },
    Str(Seq<u8>),
    Array(Seq<JsonValue>),
    Object(Seq<Seq<u8>>, Seq<JsonValue>),
}

/// The tree `t` in `m` holds the value `v`, with the fields a parse gives its nodes.
pub open spec fn repr(m: StoreView, t: Tree, v: JsonValue) -> bool
    decreases v,
{
    let d = m.nodes[t.id];
    &&& m.live(t.id)
    &&& match v {
        JsonValue::Null => d.ty == NULL && d.valueint == 0 && d.valuedouble == 0
            && d.valuestring is None && d.child is None && t.kids.len() == 0,
        JsonValue::False => d.ty == FALSE && d.valueint == 0 && d.valuedouble == 0
            && d.valuestring is None && d.child is None && t.kids.len() == 0,
        JsonValue::True => d.ty == TRUE && d.valueint == 1 && d.valuedouble == 0
            && d.valuestring is None && d.child is None && t.kids.len() == 0,
        JsonValue::Number { bits, saturated } => d.ty == NUMBER && d.valueint == saturated
            && d.valuedouble == bits && d.valuestring is None && d.child is None
            && t.kids.len() == 0,
        JsonValue::Str(b) => d.ty == STRING && d.valueint == 0 && d.valuedouble == 0
            && d.child is None && t.kids.len() == 0 && d.valuestring is Some
            && m.strings.contains_key(d.valuestring.unwrap())
            && m.strings[d.valuestring.unwrap()] == b,
        JsonValue::Array(items) => d.ty == ARRAY && d.valueint == 0 && d.valuedouble == 0
            && d.valuestring is None && m.is_list(d.child, tops(t.kids))
            && t.kids.len() == items.len()
            && forall|i: int| 0 <= i < items.len() ==> repr(m, #[trigger] t.kids[i], items[i])
                && m.nodes[t.kids[i].id].key is None,
        JsonValue::Object(keys, vals) => d.ty == OBJECT && d.valueint == 0 && d.valuedouble == 0
            && d.valuestring is None && m.is_list(d.child, tops(t.kids))
            && t.kids.len() == vals.len() && keys.len() == vals.len()
            && forall|i: int| 0 <= i < vals.len() ==> repr(m, #[trigger] t.kids[i], vals[i])
                && m.nodes[t.kids[i].id].key is Some
                && m.strings.contains_key(m.nodes[t.kids[i].id].key.unwrap())
                && m.strings[m.nodes[t.kids[i].id].key.unwrap()] == keys[i],
    }
}

/// Index of the first byte after `i` above the space character, or the end.
pub open spec fn ws_end(s: Seq<u8>, i: int) -> int
    decreases s.len() - i,
{
    if i < 0 || i >= s.len() || s[i] > 32 {
        i
    } else {
        ws_end(s, i + 1)
    }
}

/// Past the whitespace at `i`, but where only
/// whitespace is left it stops on the last byte.
pub open spec fn skip_ws(s: Seq<u8>, i: int) -> int {
    if i >= s.len() {
        i
    } else {
        let j = ws_end(s, i);
        if j == s.len() && j > 0 { j - 1 } else { j }
    }
}

pub proof fn lemma_skip_ws(s: Seq<u8>, i: int)
    requires
        0 <= i,
    ensures
        i <= ws_end(s, i),
        i < s.len() ==> ws_end(s, i) <= s.len(),
        i < s.len() ==> i <= skip_ws(s, i) < s.len(),
        i >= s.len() ==> skip_ws(s, i) == i,
    decreases s.len() - i,
{
    if 0 <= i < s.len() && s[i] <= 32 {
        lemma_skip_ws(s, i + 1);
    }
}

pub open spec fn lit_at(s: Seq<u8>, off: int, lit: Seq<u8>) -> bool {
    off + lit.len() <= s.len() && s.subrange(off, off + lit.len()) == lit
}

pub open spec fn lit_null() -> Seq<u8> {
    seq![110u8, 117u8, 108u8, 108u8]
}

pub open spec fn lit_false() -> Seq<u8> {
    seq![102u8, 97u8, 108u8, 115u8, 101u8]
}

pub open spec fn lit_true() -> Seq<u8> {
    seq![116u8, 114u8, 117u8, 101u8]
}

/// What the value parse makes of the text at `off` at nesting `depth`: the value
/// (or failure) and the offset where it stops.
pub open spec fn sp_value<F: Fn(&[u8]) -> (u64, i32)>(s: Seq<u8>, off: int, depth: int, f: F) -> (Option<JsonValue>, int)
    decreases 1001 - depth, s.len() - off, 1int,
{
    if depth < 0 || depth > 1000 || off < 0 || off > s.len() {
        (None, off)
    } else if s.len() == 0 && off == 0 {
        (None, off)
    } else if lit_at(s, off, lit_null()) {
        (Some(JsonValue::Null), off + 4)
    } else if lit_at(s, off, lit_false()) {
        (Some(JsonValue::False), off + 5)
    } else if lit_at(s, off, lit_true()) {
        (Some(JsonValue::True), off + 4)
    } else if off < s.len() && s[off] == 34 {
        match spec_parse_string(s, off) {
            Ok((b, e)) => (Some(JsonValue::Str(b)), e),
            Err(e) => (None, e),
        }
    } else if off < s.len() && (s[off] == 45 || is_digit(s[off])) {
        match spec_parse_number(s, off, f) {
            Some((v, e)) => (Some(JsonValue::Number { bits: v.0, saturated: v.1 }), e),
            None => (None, off),
        }
    } else if off < s.len() && s[off] == 91 {
        sp_array(s, off, depth, f)
    } else if off < s.len() && s[off] == 123 {
        sp_object(s, off, depth, f)
    } else {
        (None, off)
    }
}

/// The array parse at `off` (the opening bracket).
pub open spec fn sp_array<F: Fn(&[u8]) -> (u64, i32)>(s: Seq<u8>, off: int, depth: int, f: F) -> (Option<JsonValue>, int)
    decreases 1001 - depth, s.len() - off, 0int,
{
    if depth < 0 || depth >= 1000 || off < 0 || off >= s.len() || s[off] != 91 {
        (None, off)
    } else {
        let o = skip_ws(s, off + 1);
        if o < s.len() && s[o] == 93 {
            (Some(JsonValue::Array(seq![])), o + 1)
        } else if o >= s.len() {
            (None, if o > 0 { o - 1 } else { o })
        } else if o - 1 < off {
            (None, o)
        } else {
            array_of(sp_elems(s, o - 1, depth + 1, f))
        }
    }
}

/// An array of the parsed elements, or the failure.
pub open spec fn array_of(r: (Option<Seq<JsonValue>>, int)) -> (Option<JsonValue>, int) {
    match r {
        (Some(items), p) => (Some(JsonValue::Array(items)), p),
        (None, p) => (None, p),
    }
}

/// An object of the parsed members, or the failure.
pub open spec fn object_of(r: (Option<(Seq<Seq<u8>>, Seq<JsonValue>)>, int)) -> (Option<JsonValue>, int) {
    match r {
        (Some((keys, vals)), p) => (Some(JsonValue::Object(keys, vals)), p),
        (None, p) => (None, p),
    }
}

/// The elements of an array, each after the byte at `p` (the bracket or a comma).
pub open spec fn sp_elems<F: Fn(&[u8]) -> (u64, i32)>(s: Seq<u8>, p: int, depth: int, f: F) -> (Option<Seq<JsonValue>>, int)
    decreases 1001 - depth, s.len() - p, 0int,
{
    if depth < 0 || depth > 1000 || p < 0 || p >= s.len() {
        (None, p)
    } else {
        let q = skip_ws(s, p + 1);
        if q <= p || q > s.len() {
            (None, q)
        } else {
            match sp_value(s, q, depth, f) {
                (None, r) => (None, r),
                (Some(v), r) => {
                    let r2 = skip_ws(s, r);
                    if r2 < s.len() && s[r2] == 44 {
                        if r2 > p {
                            match sp_elems(s, r2, depth, f) {
                                (Some(rest), e) => (Some(seq![v] + rest), e),
                                (None, e) => (None, e),
                            }
                        } else {
                            (None, r2)
                        }
                    } else if r2 < s.len() && s[r2] == 93 {
                        (Some(seq![v]), r2 + 1)
                    } else {
                        (None, r2)
                    }
                },
            }
        }
    }
}

/// The object parse at `off` (the opening brace).
pub open spec fn sp_object<F: Fn(&[u8]) -> (u64, i32)>(s: Seq<u8>, off: int, depth: int, f: F) -> (Option<JsonValue>, int)
    decreases 1001 - depth, s.len() - off, 0int,
{
    if depth < 0 || depth >= 1000 || off < 0 || off >= s.len() || s[off] != 123 {
        (None, off)
    } else {
        let o = skip_ws(s, off + 1);
        if o < s.len() && s[o] == 125 {
            (Some(JsonValue::Object(seq![], seq![])), o + 1)
        } else if o >= s.len() {
            (None, if o > 0 { o - 1 } else { o })
        } else if o - 1 < off {
            (None, o)
        } else {
            object_of(sp_members(s, o - 1, depth + 1, f))
        }
    }
}

/// The members of an object, each after the byte at `p` (the brace or a comma).
pub open spec fn sp_members<F: Fn(&[u8]) -> (u64, i32)>(s: Seq<u8>, p: int, depth: int, f: F) -> (Option<(Seq<Seq<u8>>, Seq<JsonValue>)>, int)
    decreases 1001 - depth, s.len() - p, 0int,
{
    if depth < 0 || depth > 1000 || p < 0 || p >= s.len() {
        (None, p)
    } else if p + 1 >= s.len() {
        (None, p)
    } else {
        let q = skip_ws(s, p + 1);
        match spec_parse_string(s, q) {
            Err(e) => (None, e),
            Ok((key, r)) => {
                let r2 = skip_ws(s, r);
                if !(r2 < s.len() && s[r2] == 58) {
                    (None, r2)
                } else {
                    let q2 = skip_ws(s, r2 + 1);
                    if q2 <= p || q2 > s.len() {
                        (None, q2)
                    } else {
                        match sp_value(s, q2, depth, f) {
                            (None, r3) => (None, r3),
                            (Some(v), r3) => {
                                let r4 = skip_ws(s, r3);
                                if r4 < s.len() && s[r4] == 44 {
                                    if r4 > p {
                                        match sp_members(s, r4, depth, f) {
                                            (Some((ks, vs)), e) => (Some((seq![key] + ks, seq![v] + vs)), e),
                                            (None, e) => (None, e),
                                        }
                                    } else {
                                        (None, r4)
                                    }
                                } else if r4 < s.len() && s[r4] == 125 {
                                    (Some((seq![key], seq![v])), r4 + 1)
                                } else {
                                    (None, r4)
                                }
                            },
                        }
                    }
                }
            },
        }
    }
}

} // verus!

verus! {

/// `m2` is `m1` with the nodes `ids` and the strings `strs` added; every other node but
/// `item`, and every string of `m1`, as it was.
pub open spec fn grown(m1: StoreView, m2: StoreView, item: NodeId, ids: Set<NodeId>, strs: Set<StrId>) -> bool {
    &&& m2.nodes.dom() == m1.nodes.dom() + ids
    &&& ids.disjoint(m1.nodes.dom())
    &&& m2.strings.dom() == m1.strings.dom() + strs
    &&& strs.disjoint(m1.strings.dom())
    &&& forall|id: NodeId| m1.live(id) && id != item ==> m2.nodes[id] == m1.nodes[id]
    &&& forall|s: StrId| m1.strings.contains_key(s) ==> m2.strings[s] == m1.strings[s]
    &&& m2.fail_allocs == m1.fail_allocs
    &&& m2.str_slots >= m1.str_slots
}

/// `m2` holds the nodes and strings of `m1` exactly.
pub open spec fn same_content(m1: StoreView, m2: StoreView) -> bool {
    &&& m2.nodes == m1.nodes
    &&& m2.strings == m1.strings
    &&& m2.fail_allocs == m1.fail_allocs
    &&& m2.str_slots >= m1.str_slots
}

/// The strings a parsed tree holds below its own key: its value and everything below it.
pub open spec fn value_strs(m: StoreView, t: Tree) -> Set<StrId> {
    let d = m.nodes[t.id];
    (if d.valuestring is Some { set![d.valuestring.unwrap()] } else { Set::empty() }) + m.forest_strs(t.kids)
}

/// The fields a node has before a value is parsed into it.
pub open spec fn blank(d: NodeData) -> bool {
    d.valueint == 0 && d.valuedouble == 0 && d.valuestring is None && d.child is None
}

pub open spec fn plain_ty(ty: i32) -> bool {
    ty == NULL || ty == FALSE || ty == TRUE || ty == NUMBER || ty == STRING || ty == ARRAY || ty == OBJECT
}

pub proof fn lemma_plain_ty(ty: i32)
    requires
        plain_ty(ty),
    ensures
        !crate::types::spec_is_reference(ty),
        !crate::types::spec_string_is_const(ty),
{
    assert(ty == 4 || ty == 1 || ty == 2 || ty == 8 || ty == 16 || ty == 32 || ty == 64 ==> ty & 256 == 0 && ty & 512 == 0) by (bit_vector);
}

pub proof fn lemma_repr_plain(m: StoreView, t: Tree, v: JsonValue)
    requires
        repr(m, t, v),
    ensures
        plain_ty(m.nodes[t.id].ty),
        !crate::types::spec_is_reference(m.nodes[t.id].ty),
        !crate::types::spec_string_is_const(m.nodes[t.id].ty),
{
    lemma_plain_ty(m.nodes[t.id].ty);
}

/// A tree that holds a value is a valid tree, owned or not.
pub proof fn lemma_repr_valid(m: StoreView, t: Tree, v: JsonValue, owned: bool)
    requires
        repr(m, t, v),
    ensures
        m.tree_valid(t, owned),
    decreases v,
{
    lemma_repr_plain(m, t, v);
    let d = m.nodes[t.id];
    match v {
        JsonValue::Array(items) => {
            assert forall|i: int| 0 <= i < t.kids.len() implies m.tree_valid(#[trigger] t.kids[i], owned) by {
                lemma_repr_valid(m, t.kids[i], items[i], owned);
            }
        },
        JsonValue::Object(keys, vals) => {
            assert forall|i: int| 0 <= i < t.kids.len() implies m.tree_valid(#[trigger] t.kids[i], owned) by {
                lemma_repr_valid(m, t.kids[i], vals[i], owned);
            }
        },
        _ => {
            assert(tops(t.kids) =~= Seq::<NodeId>::empty());
        },
    }
}

/// Strings of a forest depend only on the types, values and keys of its nodes.
pub proof fn lemma_forest_strs_frame(m1: StoreView, m2: StoreView, ts: Seq<Tree>)
    requires
        forall|id: NodeId| #[trigger] forest_ids(ts).contains(id) ==> m2.nodes[id].ty == m1.nodes[id].ty
            && m2.nodes[id].valuestring == m1.nodes[id].valuestring && m2.nodes[id].key == m1.nodes[id].key,
    ensures
        m2.forest_strs(ts) == m1.forest_strs(ts),
    decreases ts,
{
    if ts.len() > 0 {
        let t = ts[0];
        let rest = ts.drop_first();
        assert(forest_ids(ts) == tree_ids(t) + forest_ids(rest));
        assert(tree_ids(t) == seq![t.id] + forest_ids(t.kids));
        assert forall|id: NodeId| #[trigger] forest_ids(t.kids).contains(id) implies forest_ids(ts).contains(id) by {
            let j = choose|j: int| 0 <= j < forest_ids(t.kids).len() && forest_ids(t.kids)[j] == id;
            assert(forest_ids(ts)[j + 1] == id);
        }
        assert forall|id: NodeId| #[trigger] forest_ids(rest).contains(id) implies forest_ids(ts).contains(id) by {
            let j = choose|j: int| 0 <= j < forest_ids(rest).len() && forest_ids(rest)[j] == id;
            assert(forest_ids(ts)[tree_ids(t).len() + j] == id);
        }
        assert(forest_ids(ts)[0] == t.id);
        assert(forest_ids(ts).contains(t.id));
        lemma_forest_strs_frame(m1, m2, t.kids);
        lemma_forest_strs_frame(m1, m2, rest);
        assert(m2.node_strs(t.id) == m1.node_strs(t.id));
        assert(m2.tree_strs(t) == m1.tree_strs(t));
    }
}

/// A tree holds its value in `m2` as in `m1` when `m2` keeps its nodes (the root up to
/// its links and key) and the strings it uses.
pub proof fn lemma_repr_frame(m1: StoreView, m2: StoreView, t: Tree, v: JsonValue)
    requires
        repr(m1, t, v),
        forall|id: NodeId| #[trigger] forest_ids(t.kids).contains(id) ==> m2.live(id) && m2.nodes[id] == m1.nodes[id],
        m2.live(t.id),
        m2.nodes[t.id].ty == m1.nodes[t.id].ty,
        m2.nodes[t.id].valueint == m1.nodes[t.id].valueint,
        m2.nodes[t.id].valuedouble == m1.nodes[t.id].valuedouble,
        m2.nodes[t.id].valuestring == m1.nodes[t.id].valuestring,
        m2.nodes[t.id].child == m1.nodes[t.id].child,
        forall|s: StrId| #[trigger] value_strs(m1, t).contains(s) ==> m2.strings.contains_key(s) && m2.strings[s] == m1.strings[s],
    ensures
        repr(m2, t, v),
    decreases v,
{
    let d = m1.nodes[t.id];
    match v {
        JsonValue::Str(b) => {
            assert(value_strs(m1, t).contains(d.valuestring.unwrap()));
        },
        JsonValue::Array(items) => {
            lemma_kids_frame(m1, m2, t);
            assert forall|i: int| 0 <= i < items.len() implies repr(m2, #[trigger] t.kids[i], items[i])
                && m2.nodes[t.kids[i].id].key is None by {
                lemma_repr_plain(m1, t.kids[i], items[i]);
                lemma_kid_frame_pre(m1, m2, t, i);
                lemma_repr_frame(m1, m2, t.kids[i], items[i]);
            }
        },
        JsonValue::Object(keys, vals) => {
            lemma_kids_frame(m1, m2, t);
            assert forall|i: int| 0 <= i < vals.len() implies repr(m2, #[trigger] t.kids[i], vals[i])
                && m2.nodes[t.kids[i].id].key is Some
                && m2.strings.contains_key(m2.nodes[t.kids[i].id].key.unwrap())
                && m2.strings[m2.nodes[t.kids[i].id].key.unwrap()] == keys[i] by {
                lemma_repr_plain(m1, t.kids[i], vals[i]);
                lemma_kid_frame_pre(m1, m2, t, i);
                lemma_repr_frame(m1, m2, t.kids[i], vals[i]);
                let k = m1.nodes[t.kids[i].id].key.unwrap();
                assert(m1.node_strs(t.kids[i].id).contains(k));
                assert(m1.tree_strs(t.kids[i]).contains(k));
                lemma_forest_strs_member(m1, t.kids, i);
                assert(value_strs(m1, t).contains(k));
            }
        },
        _ => {},
    }
}

/// The strings of one tree of a forest are strings of the forest.
pub proof fn lemma_forest_strs_member(m: StoreView, ts: Seq<Tree>, i: int)
    requires
        0 <= i < ts.len(),
    ensures
        m.tree_strs(ts[i]).subset_of(m.forest_strs(ts)),
    decreases ts.len(),
{
    if i > 0 {
        lemma_forest_strs_member(m, ts.drop_first(), i - 1);
        assert(ts.drop_first()[i - 1] == ts[i]);
    }
}

/// The ids of one tree of a forest are ids of the forest.
pub proof fn lemma_forest_ids_member(ts: Seq<Tree>, i: int)
    requires
        0 <= i < ts.len(),
    ensures
        forall|id: NodeId| #[trigger] tree_ids(ts[i]).contains(id) ==> forest_ids(ts).contains(id),
{
    crate::tree::lemma_forest_ids_split(ts, i);
    assert forall|id: NodeId| #[trigger] tree_ids(ts[i]).contains(id) implies forest_ids(ts).contains(id) by {
        let j = choose|j: int| 0 <= j < tree_ids(ts[i]).len() && tree_ids(ts[i])[j] == id;
        assert(forest_ids(ts)[forest_ids(ts.take(i)).len() + j] == id);
    }
}

proof fn lemma_kids_frame(m1: StoreView, m2: StoreView, t: Tree)
    requires
        forall|id: NodeId| #[trigger] forest_ids(t.kids).contains(id) ==> m2.live(id) && m2.nodes[id] == m1.nodes[id],
        m1.is_list(m1.nodes[t.id].child, tops(t.kids)),
        m2.nodes[t.id].child == m1.nodes[t.id].child,
    ensures
        m2.is_list(m2.nodes[t.id].child, tops(t.kids)),
{
    let s = tops(t.kids);
    assert forall|i: int| 0 <= i < s.len() implies m2.live(#[trigger] s[i]) && m2.nodes[s[i]] == m1.nodes[s[i]] by {
        lemma_forest_ids_member(t.kids, i);
        assert(tree_ids(t.kids[i])[0] == t.kids[i].id);
        assert(tree_ids(t.kids[i]).contains(t.kids[i].id));
    }
}

proof fn lemma_kid_frame_pre(m1: StoreView, m2: StoreView, t: Tree, i: int)
    requires
        0 <= i < t.kids.len(),
        forall|id: NodeId| #[trigger] forest_ids(t.kids).contains(id) ==> m2.live(id) && m2.nodes[id] == m1.nodes[id],
        forall|s: StrId| #[trigger] value_strs(m1, t).contains(s) ==> m2.strings.contains_key(s) && m2.strings[s] == m1.strings[s],
        !crate::types::spec_is_reference(m1.nodes[t.kids[i].id].ty),
    ensures
        forall|id: NodeId| #[trigger] forest_ids(t.kids[i].kids).contains(id) ==> m2.live(id) && m2.nodes[id] == m1.nodes[id],
        m2.live(t.kids[i].id),
        m2.nodes[t.kids[i].id] == m1.nodes[t.kids[i].id],
        forall|s: StrId| #[trigger] value_strs(m1, t.kids[i]).contains(s) ==> m2.strings.contains_key(s) && m2.strings[s] == m1.strings[s],
{
    let k = t.kids[i];
    lemma_forest_ids_member(t.kids, i);
    assert(tree_ids(k) == seq![k.id] + forest_ids(k.kids));
    assert(tree_ids(k)[0] == k.id);
    assert(tree_ids(k).contains(k.id));
    assert forall|id: NodeId| #[trigger] forest_ids(k.kids).contains(id) implies m2.live(id) && m2.nodes[id] == m1.nodes[id] by {
        let j = choose|j: int| 0 <= j < forest_ids(k.kids).len() && forest_ids(k.kids)[j] == id;
        assert(tree_ids(k)[j + 1] == id);
        assert(tree_ids(k).contains(id));
    }
    lemma_forest_strs_member(m1, t.kids, i);
    assert forall|s: StrId| #[trigger] value_strs(m1, k).contains(s) implies m2.strings.contains_key(s) && m2.strings[s] == m1.strings[s] by {
        assert(m1.tree_strs(k).contains(s));
        assert(value_strs(m1, t).contains(s));
    }
}

} // verus!

verus! {

/// A failed build is undone: deleting the forest `fts` that grew `before` into `m` (leaving
/// `item` as it was) gives back the nodes and strings of `before`.
pub proof fn lemma_delete_restores(before: StoreView, m: StoreView, item: NodeId, fts: Seq<Tree>)
    requires
        grown(before, m, item, forest_ids(fts).to_set(), m.forest_strs(fts)),
        before.live(item),
        m.nodes[item] == before.nodes[item],
    ensures
        same_content(before, m.after_delete(fts)),
{
    let a = m.after_delete(fts);
    let ids = forest_ids(fts).to_set();
    let strs = m.forest_strs(fts);
    assert forall|id: NodeId| #[trigger] before.nodes.contains_key(id) implies a.nodes.contains_key(id)
        && a.nodes[id] == before.nodes[id] by {
        assert(!ids.contains(id));
        assert(m.nodes.contains_key(id));
        if id != item {
            assert(before.live(id));
            assert(m.nodes[id] == before.nodes[id]);
        }
        assert(a.nodes[id] == m.nodes[id]);
    }
    assert forall|id: NodeId| #[trigger] a.nodes.contains_key(id) implies before.nodes.contains_key(id) by {
        assert(m.nodes.contains_key(id));
    }
    assert(a.nodes =~= before.nodes);
    assert forall|s: StrId| #[trigger] before.strings.contains_key(s) implies a.strings.contains_key(s)
        && a.strings[s] == before.strings[s] by {
        assert(!strs.contains(s));
    }
    assert forall|s: StrId| #[trigger] a.strings.contains_key(s) implies before.strings.contains_key(s) by {
        assert(m.strings.contains_key(s));
    }
    assert(a.strings =~= before.strings);
}

/// The value list of a parse of several elements, given the first ones already parsed.
pub open spec fn join_elems(vs: Seq<JsonValue>, r: (Option<Seq<JsonValue>>, int)) -> (Option<Seq<JsonValue>>, int) {
    match r {
        (Some(rest), e) => (Some(vs + rest), e),
        (None, e) => (None, e),
    }
}

pub open spec fn join_members(
    ks: Seq<Seq<u8>>,
    vs: Seq<JsonValue>,
    r: (Option<(Seq<Seq<u8>>, Seq<JsonValue>)>, int),
) -> (Option<(Seq<Seq<u8>>, Seq<JsonValue>)>, int) {
    match r {
        (Some((rk, rv)), e) => (Some((ks + rk, vs + rv)), e),
        (None, e) => (None, e),
    }
}

/// Skip whitespace.
fn skip_whitespace(input: &[u8], pos: &mut usize)
    requires
        *old(pos) <= input@.len(),
    ensures
        *final(pos) == skip_ws(input@, *old(pos) as int),
        *old(pos) <= *final(pos) <= input@.len(),
        *old(pos) < input@.len() ==> *final(pos) < input@.len(),
{
    proof { lemma_skip_ws(input@, *pos as int); }
    if *pos >= input.len() {
        return;
    }
    while *pos < input.len() && input[*pos] <= 32
        invariant
            *pos <= input@.len(),
            ws_end(input@, *pos as int) == ws_end(input@, *old(pos) as int),
            *old(pos) <= *pos,
        decreases input.len() - *pos,
    {
        *pos += 1;
    }
    if *pos == input.len() && *pos > 0 {
        *pos -= 1;
    }
}

fn starts_with_at(input: &[u8], off: usize, lit: &[u8]) -> (r: bool)
    requires
        off <= input@.len(),
    ensures
        r == lit_at(input@, off as int, lit@),
{
    if input.len() - off < lit.len() {
        return false;
    }
    let mut i: usize = 0;
    while i < lit.len()
        invariant
            off <= input@.len(),
            lit@.len() <= input@.len() - off,
            off + lit@.len() <= input@.len(),
            i <= lit@.len(),
            forall|j: int| 0 <= j < i ==> input@[off + j] == lit@[j],
            input@.len() <= usize::MAX,
        decreases lit.len() - i,
    {
        assert(off + i < input@.len());
        if input[off + i] != lit[i] {
            return false;
        }
        i += 1;
    }
    assert(input@.subrange(off as int, off + lit@.len()) =~= lit@);
    true
}

/// The contract shared by the value parsers: on failure the store is as it was; on
/// success the tree below `item` holds the value, built of new nodes and strings.
#[verifier::opaque]
pub open spec fn parsed_into(
    before: StoreView,
    after: StoreView,
    item: NodeId,
    res: (Option<JsonValue>, int),
    ok: bool,
    t: Tree,
    v: JsonValue,
    pos: int,
) -> bool {
    &&& res == (if ok { Some(v) } else { None::<JsonValue> }, pos)
    &&& !ok ==> same_content(before, after)
    &&& ok ==> {
        &&& t.id == item
        &&& repr(after, t, v)
        &&& tree_ids(t).no_duplicates()
        &&& grown(before, after, item, forest_ids(t.kids).to_set(), value_strs(after, t))
        &&& after.nodes[item].next == before.nodes[item].next
        &&& after.nodes[item].prev == before.nodes[item].prev
        &&& after.nodes[item].key == before.nodes[item].key
    }
}

fn parse_value<F: Fn(&[u8]) -> (u64, i32)>(
    store: &mut SafeStore,
    item: NodeId,
    input: &[u8],
    pos: &mut usize,
    depth: usize,
    conv: &F,
) -> (r: (bool, Ghost<Tree>, Ghost<JsonValue>))
    requires
        old(store)@.live(item),
        !old(store)@.fail_allocs,
        blank(old(store)@.nodes[item]),
        *old(pos) <= input@.len(),
        depth <= 1000,
        num_parse_ok(*conv),
    ensures
        parsed_into(old(store)@, final(store)@, item, sp_value(input@, *old(pos) as int, depth as int, *conv),
            r.0, r.1@, r.2@, *final(pos) as int),
        *final(pos) <= input@.len(),
        r.0 ==> *final(pos) > *old(pos),
    decreases 1001 - depth, input@.len() - *old(pos), 1int,
{
    proof { reveal(parsed_into); }
    let ghost m0 = store@;
    let off = *pos;
    let ghost leaf = Tree { id: item, kids: seq![] };
    proof {
        assert(forest_ids(leaf.kids) =~= Seq::<NodeId>::empty());
        assert(tree_ids(leaf) =~= seq![item]);
        assert(tops(leaf.kids) =~= Seq::<NodeId>::empty());
    }
    if input.len() == 0 && off == 0 {
        return (false, Ghost(leaf), Ghost(JsonValue::Null));
    }
    if starts_with_at(input, off, &[110u8, 117u8, 108u8, 108u8]) {
        store.set_ty(item, NULL);
        *pos = off + 4;
        proof {
            assert(m0.forest_strs(leaf.kids) =~= Set::<StrId>::empty());
            assert(store@.forest_strs(leaf.kids) =~= Set::<StrId>::empty());
            assert(value_strs(store@, leaf) =~= Set::<StrId>::empty());
            assert(store@.nodes.dom() =~= m0.nodes.dom() + forest_ids(leaf.kids).to_set());
            assert(store@.strings.dom() =~= m0.strings.dom() + value_strs(store@, leaf));
        }
        return (true, Ghost(leaf), Ghost(JsonValue::Null));
    }
    if starts_with_at(input, off, &[102u8, 97u8, 108u8, 115u8, 101u8]) {
        store.set_ty(item, FALSE);
        *pos = off + 5;
        proof {
            assert(store@.forest_strs(leaf.kids) =~= Set::<StrId>::empty());
            assert(value_strs(store@, leaf) =~= Set::<StrId>::empty());
            assert(store@.nodes.dom() =~= m0.nodes.dom() + forest_ids(leaf.kids).to_set());
            assert(store@.strings.dom() =~= m0.strings.dom() + value_strs(store@, leaf));
        }
        return (true, Ghost(leaf), Ghost(JsonValue::False));
    }
    if starts_with_at(input, off, &[116u8, 114u8, 117u8, 101u8]) {
        store.set_ty(item, TRUE);
        store.set_valueint(item, 1);
        *pos = off + 4;
        proof {
            assert(store@.forest_strs(leaf.kids) =~= Set::<StrId>::empty());
            assert(value_strs(store@, leaf) =~= Set::<StrId>::empty());
            assert(store@.nodes.dom() =~= m0.nodes.dom() + forest_ids(leaf.kids).to_set());
            assert(store@.strings.dom() =~= m0.strings.dom() + value_strs(store@, leaf));
        }
        return (true, Ghost(leaf), Ghost(JsonValue::True));
    }
    if off < input.len() && input[off] == 34 {
        let res = crate::string::parse_string(store, item, input, off);
        proof { crate::string::lemma_parse_string_bounds(input@, off as int); }
        match res {
            Ok(end) => {
                *pos = end;
                let ghost b = match spec_parse_string(input@, off as int) { Ok((b, e)) => b, Err(_) => seq![] };
                proof {
                    let sid = store@.nodes[item].valuestring.unwrap();
                    assert(store@.forest_strs(leaf.kids) =~= Set::<StrId>::empty());
                    assert(value_strs(store@, leaf) =~= set![sid]);
                    assert(store@.nodes.dom() =~= m0.nodes.dom() + forest_ids(leaf.kids).to_set());
                    assert(store@.strings.dom() =~= m0.strings.dom() + value_strs(store@, leaf));
                }
                return (true, Ghost(leaf), Ghost(JsonValue::Str(b)));
            },
            Err(e) => {
                *pos = e;
                return (false, Ghost(leaf), Ghost(JsonValue::Null));
            },
        }
    }
    if off < input.len() && (input[off] == 45 || (input[off] >= 48 && input[off] <= 57)) {
        let res = crate::number::parse_number(store, item, input, off, conv);
        proof { crate::number::lemma_parse_number_bounds(input@, off as int, *conv); }
        match res {
            Some(end) => {
                *pos = end;
                let ghost v = match spec_parse_number(input@, off as int, *conv) {
                    Some((v, e)) => JsonValue::Number { bits: v.0, saturated: v.1 },
                    None => JsonValue::Null,
                };
                proof {
                    assert(store@.forest_strs(leaf.kids) =~= Set::<StrId>::empty());
                    assert(value_strs(store@, leaf) =~= Set::<StrId>::empty());
                    assert(store@.nodes.dom() =~= m0.nodes.dom() + forest_ids(leaf.kids).to_set());
                    assert(store@.strings.dom() =~= m0.strings.dom() + value_strs(store@, leaf));
                }
                return (true, Ghost(leaf), Ghost(v));
            },
            None => {
                return (false, Ghost(leaf), Ghost(JsonValue::Null));
            },
        }
    }
    if off < input.len() && input[off] == 91 {
        return parse_array(store, item, input, pos, depth, conv);
    }
    if off < input.len() && input[off] == 123 {
        return parse_object(store, item, input, pos, depth, conv);
    }
    (false, Ghost(leaf), Ghost(JsonValue::Null))
}

} // verus!

verus! {

/// The chain and `prev` links of a list under construction: every node but the first
/// has its predecessor as `prev`.
pub open spec fn partial_list(m: StoreView, ts: Seq<Tree>) -> bool {
    &&& m.is_chain(if ts.len() == 0 { None } else { Some(ts[0].id) }, tops(ts))
    &&& forall|i: int| 0 < i < ts.len() ==> m.nodes[#[trigger] ts[i].id].prev == Some(ts[i - 1].id)
}

/// Link a fresh node `n` after the node `current`, when there is one.
fn link_after(store: &mut SafeStore, current: Option<NodeId>, n: NodeId)
    requires
        old(store)@.live(n),
        current matches Some(c) ==> old(store)@.live(c) && c != n,
    ensures
        current matches Some(c) ==> final(store)@ == old(store)@
            .with_node(c, NodeData { next: Some(n), ..old(store)@.nodes[c] })
            .with_node(n, NodeData { prev: Some(c), ..old(store)@.nodes[n] }),
        current is None ==> final(store)@ == old(store)@,
{
    match current {
        Some(c) => {
            store.set_next(c, Some(n));
            store.set_prev(n, Some(c));
        },
        None => {},
    }
}

#[verifier::spinoff_prover]
#[verifier::rlimit(50)]
fn parse_array<F: Fn(&[u8]) -> (u64, i32)>(
    store: &mut SafeStore,
    item: NodeId,
    input: &[u8],
    pos: &mut usize,
    depth: usize,
    conv: &F,
) -> (r: (bool, Ghost<Tree>, Ghost<JsonValue>))
    requires
        old(store)@.live(item),
        !old(store)@.fail_allocs,
        blank(old(store)@.nodes[item]),
        *old(pos) <= input@.len(),
        depth <= 1000,
        num_parse_ok(*conv),
    ensures
        parsed_into(old(store)@, final(store)@, item, sp_array(input@, *old(pos) as int, depth as int, *conv),
            r.0, r.1@, r.2@, *final(pos) as int),
        *final(pos) <= input@.len(),
        r.0 ==> *final(pos) > *old(pos),
    decreases 1001 - depth, input@.len() - *old(pos), 0int,
{
    let ghost m0 = store@;
    let ghost leaf = Tree { id: item, kids: seq![] };
    let off = *pos;
    if depth >= NESTING_LIMIT {
        proof { reveal(parsed_into); }
        return (false, Ghost(leaf), Ghost(JsonValue::Null));
    }
    if !(off < input.len() && input[off] == 91) {
        proof { reveal(parsed_into); }
        return (false, Ghost(leaf), Ghost(JsonValue::Null));
    }
    *pos = off + 1;
    skip_whitespace(input, pos);
    if *pos < input.len() && input[*pos] == 93 {
        store.set_ty(item, ARRAY);
        store.set_child(item, None);
        *pos += 1;
        proof {
            assert(forest_ids(leaf.kids) =~= Seq::<NodeId>::empty());
            assert(tree_ids(leaf) =~= seq![item]);
            assert(tops(leaf.kids) =~= Seq::<NodeId>::empty());
            assert(store@.forest_strs(leaf.kids) =~= Set::<StrId>::empty());
            assert(value_strs(store@, leaf) =~= Set::<StrId>::empty());
            assert(store@.nodes.dom() =~= m0.nodes.dom() + forest_ids(leaf.kids).to_set());
            assert(store@.strings.dom() =~= m0.strings.dom() + value_strs(store@, leaf));
            assert(seq![] =~= Seq::<JsonValue>::empty());
            reveal(parsed_into);
        }
        return (true, Ghost(leaf), Ghost(JsonValue::Array(seq![])));
    }
    if !(*pos < input.len()) {
        if *pos > 0 {
            *pos -= 1;
        }
        proof { reveal(parsed_into); }
        return (false, Ghost(leaf), Ghost(JsonValue::Null));
    }
    *pos -= 1;
    let d1 = depth + 1;
    let ghost p0 = *pos as int;
    let mut head: Option<NodeId> = None;
    let mut current: Option<NodeId> = None;
    let ghost mut ts: Seq<Tree> = seq![];
    let ghost mut vs: Seq<JsonValue> = seq![];
    let ghost mut ks: Seq<Seq<u8>> = seq![];
    proof {
        assert(join_elems(vs, sp_elems(input@, p0, d1 as int, *conv)) == sp_elems(input@, p0, d1 as int, *conv)) by {
            match sp_elems(input@, p0, d1 as int, *conv) {
                (Some(rest), e) => { assert(vs + rest =~= rest); },
                (None, e) => {},
            }
        }
        lemma_elems_inv_empty(m0, item);
    }
    loop
        invariant_except_break
            p0 <= *pos < input@.len(),
            sp_elems(input@, p0, d1 as int, *conv) == join_elems(vs, sp_elems(input@, *pos as int, d1 as int, *conv)),
        invariant
            m0 == old(store)@,
            off == *old(pos),
            m0.live(item),
            blank(m0.nodes[item]),
            !m0.fail_allocs,
            d1 == depth + 1,
            depth < 1000,
            num_parse_ok(*conv),
            *pos <= input@.len(),
            p0 >= off,
            head == (if ts.len() == 0 { None } else { Some(ts[0].id) }),
            current == (if ts.len() == 0 { None } else { Some(ts.last().id) }),
            elems_inv(m0, store@, item, ts, vs, ks, false),
            input@.len() <= usize::MAX,
            sp_array(input@, off as int, depth as int, *conv) == array_of(sp_elems(input@, p0, d1 as int, *conv)),
        ensures
            ts.len() > 0,
            *pos > p0,
            sp_elems(input@, p0, d1 as int, *conv) == (if *pos < input@.len() && input@[*pos as int] == 93 {
                (Some(vs), *pos + 1)
            } else {
                (None::<Seq<JsonValue>>, *pos as int)
            }),
        decreases input@.len() - *pos,
    {
        let ghost m1 = store@;
        let ghost p = *pos as int;
        proof { lemma_elems_inv_facts(m0, m1, item, ts, vs, ks, false); }
        let new_item = match store.alloc_node() {
            Some(n) => n,
            None => {
                store.delete(head);
                return (false, Ghost(leaf), Ghost(JsonValue::Null));
            },
        };
        let ghost tn = Tree { id: new_item, kids: seq![] };
        let ghost m1a = store@;
        link_after(store, current, new_item);
        if head.is_none() {
            head = Some(new_item);
        }
        current = Some(new_item);
        let ghost m2 = store@;
        *pos += 1;
        skip_whitespace(input, pos);
        let ghost q = *pos as int;
        proof {
            lemma_linked(m1, m1a, m2, ts, tn);
            lemma_elems_unfold(input@, p, d1 as int, *conv);
        }
        let (ok, Ghost(t), Ghost(v)) = parse_value(store, new_item, input, pos, d1, conv);
        let ghost m3 = store@;
        let ghost r = *pos as int;
        proof { lemma_parsed_use(m2, m3, new_item, sp_value(input@, q, d1 as int, *conv), ok, t, v, r); }
        if !ok {
            proof {
                lemma_elems_fail(m0, m1, m2, m3, item, ts, vs, ks, false, tn, false, seq![]);
                crate::tree::lemma_forest_is(m3, head, ts.push(tn), true);
                lemma_delete_restores(m0, m3, item, ts.push(tn));
            }
            store.delete(head);
            proof {
                assert(sp_elems(input@, p, d1 as int, *conv) == (None::<Seq<JsonValue>>, r));
                lemma_parsed_fail(m0, store@, item, sp_array(input@, off as int, depth as int, *conv), leaf, JsonValue::Null, r);
            }
            return (false, Ghost(leaf), Ghost(JsonValue::Null));
        }
        proof { lemma_elems_step(m0, m1, m2, m3, item, ts, vs, ks, false, tn, seq![], t, v); }
        skip_whitespace(input, pos);
        proof {
            lemma_skip_ws(input@, r);
            lemma_elems_join(input@, p0, p, d1 as int, *conv, vs, v, *pos as int);
            ts = ts.push(t);
            vs = vs.push(v);
            ks = ks.push(seq![]);
        }
        if !(*pos < input.len() && input[*pos] == 44) {
            break;
        }
    }
    proof { lemma_elems_inv_facts(m0, store@, item, ts, vs, ks, false); }
    if !(*pos < input.len() && input[*pos] == 93) {
        proof {
            lemma_list_forest(m0, store@, item, ts, vs, ks, false);
            crate::tree::lemma_forest_is(store@, head, ts, true);
            lemma_delete_restores(m0, store@, item, ts);
        }
        store.delete(head);
        proof {
            lemma_parsed_fail(m0, store@, item, sp_array(input@, off as int, depth as int, *conv), leaf, JsonValue::Null, *pos as int);
        }
        return (false, Ghost(leaf), Ghost(JsonValue::Null));
    }
    let ghost m4 = store@;
    proof {
        lemma_ids_live(m0, m4, item, ts);
        crate::tree::lemma_tops_in_ids(ts);
        assert(forest_ids(ts).contains(ts[0].id));
    }
    let h = head.unwrap();
    let c = current.unwrap();
    store.set_prev(h, Some(c));
    store.set_ty(item, ARRAY);
    store.set_child(item, head);
    *pos += 1;
    proof {
        assert(store@.nodes.dom() =~= m4.nodes.dom());
        lemma_list_finish(m0, m4, store@, item, ts, vs, ks, false);
        reveal(parsed_into);
    }
    (true, Ghost(Tree { id: item, kids: ts }), Ghost(JsonValue::Array(vs)))
}

#[verifier::spinoff_prover]
#[verifier::rlimit(60)]
fn parse_object<F: Fn(&[u8]) -> (u64, i32)>(
    store: &mut SafeStore,
    item: NodeId,
    input: &[u8],
    pos: &mut usize,
    depth: usize,
    conv: &F,
) -> (r: (bool, Ghost<Tree>, Ghost<JsonValue>))
    requires
        old(store)@.live(item),
        !old(store)@.fail_allocs,
        blank(old(store)@.nodes[item]),
        *old(pos) <= input@.len(),
        depth <= 1000,
        num_parse_ok(*conv),
    ensures
        parsed_into(old(store)@, final(store)@, item, sp_object(input@, *old(pos) as int, depth as int, *conv),
            r.0, r.1@, r.2@, *final(pos) as int),
        *final(pos) <= input@.len(),
        r.0 ==> *final(pos) > *old(pos),
    decreases 1001 - depth, input@.len() - *old(pos), 0int,
{
    let ghost m0 = store@;
    let ghost leaf = Tree { id: item, kids: seq![] };
    let off = *pos;
    if depth >= NESTING_LIMIT {
        proof { reveal(parsed_into); }
        return (false, Ghost(leaf), Ghost(JsonValue::Null));
    }
    if !(off < input.len() && input[off] == 123) {
        proof { reveal(parsed_into); }
        return (false, Ghost(leaf), Ghost(JsonValue::Null));
    }
    *pos = off + 1;
    skip_whitespace(input, pos);
    if *pos < input.len() && input[*pos] == 125 {
        store.set_ty(item, OBJECT);
        store.set_child(item, None);
        *pos += 1;
        proof {
            assert(forest_ids(leaf.kids) =~= Seq::<NodeId>::empty());
            assert(tree_ids(leaf) =~= seq![item]);
            assert(tops(leaf.kids) =~= Seq::<NodeId>::empty());
            assert(store@.forest_strs(leaf.kids) =~= Set::<StrId>::empty());
            assert(value_strs(store@, leaf) =~= Set::<StrId>::empty());
            assert(store@.nodes.dom() =~= m0.nodes.dom() + forest_ids(leaf.kids).to_set());
            assert(store@.strings.dom() =~= m0.strings.dom() + value_strs(store@, leaf));
            reveal(parsed_into);
        }
        return (true, Ghost(leaf), Ghost(JsonValue::Object(seq![], seq![])));
    }
    if !(*pos < input.len()) {
        if *pos > 0 {
            *pos -= 1;
        }
        proof { reveal(parsed_into); }
        return (false, Ghost(leaf), Ghost(JsonValue::Null));
    }
    *pos -= 1;
    let d1 = depth + 1;
    let ghost p0 = *pos as int;
    let mut head: Option<NodeId> = None;
    let mut current: Option<NodeId> = None;
    let ghost mut ts: Seq<Tree> = seq![];
    let ghost mut vs: Seq<JsonValue> = seq![];
    let ghost mut ks: Seq<Seq<u8>> = seq![];
    proof {
        assert(join_members(ks, vs, sp_members(input@, p0, d1 as int, *conv)) == sp_members(input@, p0, d1 as int, *conv)) by {
            match sp_members(input@, p0, d1 as int, *conv) {
                (Some((rk, rv)), e) => {
                    assert(ks + rk =~= rk);
                    assert(vs + rv =~= rv);
                },
                (None, e) => {},
            }
        }
        lemma_elems_inv_empty(m0, item);
    }
    loop
        invariant_except_break
            p0 <= *pos < input@.len(),
            sp_members(input@, p0, d1 as int, *conv) == join_members(ks, vs, sp_members(input@, *pos as int, d1 as int, *conv)),
        invariant
            m0 == old(store)@,
            off == *old(pos),
            m0.live(item),
            blank(m0.nodes[item]),
            !m0.fail_allocs,
            d1 == depth + 1,
            depth < 1000,
            num_parse_ok(*conv),
            *pos <= input@.len(),
            p0 >= off,
            head == (if ts.len() == 0 { None } else { Some(ts[0].id) }),
            current == (if ts.len() == 0 { None } else { Some(ts.last().id) }),
            elems_inv(m0, store@, item, ts, vs, ks, true),
            input@.len() <= usize::MAX,
            sp_object(input@, off as int, depth as int, *conv) == object_of(sp_members(input@, p0, d1 as int, *conv)),
        ensures
            ts.len() > 0,
            *pos > p0,
            sp_members(input@, p0, d1 as int, *conv) == (if *pos < input@.len() && input@[*pos as int] == 125 {
                (Some((ks, vs)), *pos + 1)
            } else {
                (None::<(Seq<Seq<u8>>, Seq<JsonValue>)>, *pos as int)
            }),
        decreases input@.len() - *pos,
    {
        let ghost m1 = store@;
        let ghost p = *pos as int;
        proof { lemma_elems_inv_facts(m0, m1, item, ts, vs, ks, true); }
        let new_item = match store.alloc_node() {
            Some(n) => n,
            None => {
                store.delete(head);
                return (false, Ghost(leaf), Ghost(JsonValue::Null));
            },
        };
        let ghost tn = Tree { id: new_item, kids: seq![] };
        let ghost m1a = store@;
        link_after(store, current, new_item);
        if head.is_none() {
            head = Some(new_item);
        }
        current = Some(new_item);
        let ghost m1b = store@;
        proof { lemma_linked(m1, m1a, m1b, ts, tn); }
        if !(*pos + 1 < input.len()) {
            proof {
                lemma_elems_fail(m0, m1, m1b, m1b, item, ts, vs, ks, true, tn, false, seq![]);
                crate::tree::lemma_forest_is(m1b, head, ts.push(tn), true);
                lemma_delete_restores(m0, m1b, item, ts.push(tn));
            }
            store.delete(head);
            proof {
                assert(sp_members(input@, p, d1 as int, *conv) == (None::<(Seq<Seq<u8>>, Seq<JsonValue>)>, p));
                lemma_parsed_fail(m0, store@, item, sp_object(input@, off as int, depth as int, *conv), leaf, JsonValue::Null, p);
            }
            return (false, Ghost(leaf), Ghost(JsonValue::Null));
        }
        *pos += 1;
        skip_whitespace(input, pos);
        let ghost q = *pos as int;
        proof {
            lemma_members_unfold(input@, p, d1 as int, *conv);
            crate::string::lemma_parse_string_bounds(input@, q);
        }
        match crate::string::parse_string(store, new_item, input, *pos) {
            Ok(e) => {
                *pos = e;
            },
            Err(e) => {
                *pos = e;
                proof {
                    lemma_elems_fail(m0, m1, m1b, m1b, item, ts, vs, ks, true, tn, false, seq![]);
                    crate::tree::lemma_forest_is(m1b, head, ts.push(tn), true);
                    lemma_delete_restores(m0, m1b, item, ts.push(tn));
                }
                store.delete(head);
                proof {
                    lemma_parsed_fail(m0, store@, item, sp_object(input@, off as int, depth as int, *conv), leaf, JsonValue::Null, e as int);
                }
                return (false, Ghost(leaf), Ghost(JsonValue::Null));
            },
        }
        let ghost m1c = store@;
        let ghost r = *pos as int;
        let ghost kb = match spec_parse_string(input@, q) { Ok((b, e)) => b, Err(_) => seq![] };
        skip_whitespace(input, pos);
        let ghost r2 = *pos as int;
        let key = store.valuestring_id(new_item);
        store.set_key_id(new_item, key);
        store.set_valuestring_id(new_item, None);
        let ghost m2 = store@;
        proof {
            let sid = key.unwrap();
            assert(m2.nodes =~= m1b.nodes.insert(new_item, NodeData { ty: STRING, key: Some(sid), ..m1b.nodes[new_item] }));
            lemma_keyed(m1, m1b, m2, ts, tn, sid, kb);
        }
        if !(*pos < input.len() && input[*pos] == 58) {
            proof {
                lemma_elems_fail(m0, m1, m2, m2, item, ts, vs, ks, true, tn, true, kb);
                crate::tree::lemma_forest_is(m2, head, ts.push(tn), true);
                lemma_delete_restores(m0, m2, item, ts.push(tn));
            }
            store.delete(head);
            proof {
                lemma_parsed_fail(m0, store@, item, sp_object(input@, off as int, depth as int, *conv), leaf, JsonValue::Null, r2);
            }
            return (false, Ghost(leaf), Ghost(JsonValue::Null));
        }
        *pos += 1;
        skip_whitespace(input, pos);
        let ghost q2 = *pos as int;
        let (ok, Ghost(t), Ghost(v)) = parse_value(store, new_item, input, pos, d1, conv);
        let ghost m3 = store@;
        let ghost r3 = *pos as int;
        proof { lemma_parsed_use(m2, m3, new_item, sp_value(input@, q2, d1 as int, *conv), ok, t, v, r3); }
        if !ok {
            proof {
                lemma_elems_fail(m0, m1, m2, m3, item, ts, vs, ks, true, tn, true, kb);
                crate::tree::lemma_forest_is(m3, head, ts.push(tn), true);
                lemma_delete_restores(m0, m3, item, ts.push(tn));
            }
            store.delete(head);
            proof {
                lemma_parsed_fail(m0, store@, item, sp_object(input@, off as int, depth as int, *conv), leaf, JsonValue::Null, r3);
            }
            return (false, Ghost(leaf), Ghost(JsonValue::Null));
        }
        proof { lemma_elems_step(m0, m1, m2, m3, item, ts, vs, ks, true, tn, kb, t, v); }
        skip_whitespace(input, pos);
        proof {
            lemma_skip_ws(input@, r3);
            lemma_members_join(input@, p0, p, d1 as int, *conv, ks, vs, kb, v, r3, *pos as int);
            ts = ts.push(t);
            vs = vs.push(v);
            ks = ks.push(kb);
        }
        if !(*pos < input.len() && input[*pos] == 44) {
            break;
        }
    }
    proof { lemma_elems_inv_facts(m0, store@, item, ts, vs, ks, true); }
    if !(*pos < input.len() && input[*pos] == 125) {
        proof {
            lemma_list_forest(m0, store@, item, ts, vs, ks, true);
            crate::tree::lemma_forest_is(store@, head, ts, true);
            lemma_delete_restores(m0, store@, item, ts);
        }
        store.delete(head);
        proof {
            lemma_parsed_fail(m0, store@, item, sp_object(input@, off as int, depth as int, *conv), leaf, JsonValue::Null, *pos as int);
        }
        return (false, Ghost(leaf), Ghost(JsonValue::Null));
    }
    let ghost m4 = store@;
    proof {
        lemma_ids_live(m0, m4, item, ts);
        crate::tree::lemma_tops_in_ids(ts);
        assert(forest_ids(ts).contains(ts[0].id));
    }
    let h = head.unwrap();
    let c = current.unwrap();
    store.set_prev(h, Some(c));
    store.set_ty(item, OBJECT);
    store.set_child(item, head);
    *pos += 1;
    proof {
        assert(store@.nodes.dom() =~= m4.nodes.dom());
        lemma_list_finish(m0, m4, store@, item, ts, vs, ks, true);
        reveal(parsed_into);
    }
    (true, Ghost(Tree { id: item, kids: ts }), Ghost(JsonValue::Object(ks, vs)))
}

} // verus!



verus! {

proof fn lemma_single_to_set(x: NodeId)
    ensures
        seq![x].to_set() == set![x],
{
    assert(seq![x][0] == x);
    assert(seq![x].to_set() =~= set![x]);
}

/// The key a list element has: a live string with the given bytes in an object, none in an array.
pub open spec fn key_ok(m: StoreView, id: NodeId, is_obj: bool, k: Seq<u8>) -> bool {
    if is_obj {
        &&& m.nodes[id].key is Some
        &&& m.strings.contains_key(m.nodes[id].key.unwrap())
        &&& m.strings[m.nodes[id].key.unwrap()] == k
    } else {
        m.nodes[id].key is None
    }
}

/// The invariant of a list of parsed elements under construction below `item`.
#[verifier::opaque]
pub open spec fn elems_inv(m0: StoreView, m: StoreView, item: NodeId, ts: Seq<Tree>, vs: Seq<JsonValue>, keyed: Seq<Seq<u8>>, is_obj: bool) -> bool {
    &&& ts.len() == vs.len()
    &&& keyed.len() == ts.len()
    &&& partial_list(m, ts)
    &&& forall|i: int| 0 <= i < ts.len() ==> repr(m, #[trigger] ts[i], vs[i]) && key_ok(m, ts[i].id, is_obj, keyed[i])
    &&& forest_ids(ts).no_duplicates()
    &&& grown(m0, m, item, forest_ids(ts).to_set(), m.forest_strs(ts))
    &&& m.nodes[item] == m0.nodes[item]
    &&& m0.live(item)
}

/// `m2` keeps every node of `m1` but the last of the list (whose `next` may change) and
/// every string of `m1`.
pub open spec fn keeps_list(m1: StoreView, m2: StoreView, ts: Seq<Tree>) -> bool {
    &&& forall|id: NodeId| #[trigger] m1.live(id) && !(ts.len() > 0 && id == ts.last().id) ==> m2.live(id) && m2.nodes[id] == m1.nodes[id]
    &&& ts.len() > 0 ==> m2.live(ts.last().id) && m2.nodes[ts.last().id] == (NodeData { next: m2.nodes[ts.last().id].next, ..m1.nodes[ts.last().id] })
    &&& forall|s: StrId| #[trigger] m1.strings.contains_key(s) ==> m2.strings.contains_key(s) && m2.strings[s] == m1.strings[s]
}

/// The store just before an element's value is parsed into the fresh node `tn.id`,
/// linked after the list `ts` (and, in an object, given its key).
pub open spec fn pre_elem(m1: StoreView, m2: StoreView, ts: Seq<Tree>, tn: Tree, has_key: bool, kb: Seq<u8>) -> bool {
    let n = tn.id;
    &&& !m1.live(n)
    &&& tn.kids.len() == 0
    &&& m2.nodes.dom() == m1.nodes.dom().insert(n)
    &&& keeps_list(m1, m2, ts)
    &&& ts.len() > 0 ==> m2.nodes[ts.last().id].next == Some(n)
    &&& partial_list(m2, ts.push(tn))
    &&& blank(m2.nodes[n])
    &&& m2.nodes[n].next is None
    &&& !crate::types::spec_is_reference(m2.nodes[n].ty)
    &&& !crate::types::spec_string_is_const(m2.nodes[n].ty)
    &&& if has_key {
        &&& m2.nodes[n].key is Some
        &&& !m1.strings.contains_key(m2.nodes[n].key.unwrap())
        &&& m2.strings == m1.strings.insert(m2.nodes[n].key.unwrap(), kb)
    } else {
        &&& m2.nodes[n].key is None
        &&& m2.strings == m1.strings
    }
    &&& m2.fail_allocs == m1.fail_allocs
    &&& m2.str_slots >= m1.str_slots
}

pub proof fn lemma_elems_inv_empty(m0: StoreView, item: NodeId)
    requires
        m0.live(item),
    ensures
        elems_inv(m0, m0, item, seq![], seq![], seq![], false),
        elems_inv(m0, m0, item, seq![], seq![], seq![], true),
{
    reveal(elems_inv);
    let ts: Seq<Tree> = seq![];
    assert(tops(ts) =~= Seq::<NodeId>::empty());
    assert(forest_ids(ts) =~= Seq::<NodeId>::empty());
    assert(m0.forest_strs(ts) =~= Set::<StrId>::empty());
    assert(m0.nodes.dom() =~= m0.nodes.dom() + forest_ids(ts).to_set());
    assert(m0.strings.dom() =~= m0.strings.dom() + m0.forest_strs(ts));
}

proof fn lemma_ids_live(m0: StoreView, m: StoreView, item: NodeId, ts: Seq<Tree>)
    requires
        grown(m0, m, item, forest_ids(ts).to_set(), m.forest_strs(ts)),
    ensures
        forall|id: NodeId| #[trigger] forest_ids(ts).contains(id) ==> m.live(id) && !m0.live(id),
{
    assert forall|id: NodeId| #[trigger] forest_ids(ts).contains(id) implies m.live(id) && !m0.live(id) by {
        assert(forest_ids(ts).to_set().contains(id));
    }
}

/// Forest ids of a list with one more tree.
proof fn lemma_ids_push(ts: Seq<Tree>, t: Tree)
    ensures
        forest_ids(ts.push(t)) == forest_ids(ts) + tree_ids(t),
        forall|id: NodeId| #[trigger] forest_ids(ts.push(t)).contains(id) <==> (forest_ids(ts).contains(id) || tree_ids(t).contains(id)),
        forest_ids(ts.push(t)).to_set() == forest_ids(ts).to_set() + tree_ids(t).to_set(),
{
    crate::tree::lemma_forest_ids_append(ts, seq![t]);
    crate::tree::lemma_forest_single(StoreView { nodes: Map::empty(), strings: Map::empty(), str_slots: 0, fail_allocs: false }, t);
    assert(ts.push(t) =~= ts + seq![t]);
    crate::tree::lemma_concat_to_set(forest_ids(ts), tree_ids(t));
    assert forall|id: NodeId| #[trigger] forest_ids(ts.push(t)).contains(id) <==> (forest_ids(ts).contains(id) || tree_ids(t).contains(id)) by {
        assert(forest_ids(ts.push(t)).to_set().contains(id) == forest_ids(ts.push(t)).contains(id));
        assert(forest_ids(ts).to_set().contains(id) == forest_ids(ts).contains(id));
        assert(tree_ids(t).to_set().contains(id) == tree_ids(t).contains(id));
    }
}

proof fn lemma_strs_push(m: StoreView, ts: Seq<Tree>, t: Tree)
    ensures
        m.forest_strs(ts.push(t)) == m.forest_strs(ts) + m.tree_strs(t),
{
    crate::tree::lemma_forest_strs_append(m, ts, seq![t]);
    crate::tree::lemma_forest_single(m, t);
    assert(ts.push(t) =~= ts + seq![t]);
}

/// Every string a parsed tree uses below its key is live.
pub proof fn lemma_repr_strs_live(m: StoreView, t: Tree, v: JsonValue, s: StrId)
    requires
        repr(m, t, v),
        value_strs(m, t).contains(s),
    ensures
        m.strings.contains_key(s),
    decreases v,
{
    let d = m.nodes[t.id];
    if d.valuestring is Some && s == d.valuestring.unwrap() {
    } else {
        assert(m.forest_strs(t.kids).contains(s));
        let i = lemma_forest_strs_which(m, t.kids, s);
        let k = t.kids[i];
        match v {
            JsonValue::Array(items) => {
                lemma_repr_plain(m, k, items[i]);
                if value_strs(m, k).contains(s) {
                    lemma_repr_strs_live(m, k, items[i], s);
                }
            },
            JsonValue::Object(keys, vals) => {
                lemma_repr_plain(m, k, vals[i]);
                if value_strs(m, k).contains(s) {
                    lemma_repr_strs_live(m, k, vals[i], s);
                }
            },
            _ => {},
        }
    }
}

/// A string of a forest belongs to one of its trees: its node strings or below.
pub proof fn lemma_forest_strs_which(m: StoreView, ts: Seq<Tree>, s: StrId) -> (i: int)
    requires
        m.forest_strs(ts).contains(s),
    ensures
        0 <= i < ts.len(),
        m.node_strs(ts[i].id).contains(s) || m.forest_strs(ts[i].kids).contains(s),
    decreases ts.len(),
{
    if m.tree_strs(ts[0]).contains(s) {
        0
    } else {
        let j = lemma_forest_strs_which(m, ts.drop_first(), s);
        assert(ts.drop_first()[j] == ts[j + 1]);
        j + 1
    }
}

/// A tree of the list keeps its value in a store that keeps the list.
proof fn lemma_repr_keep(m1: StoreView, m2: StoreView, ts: Seq<Tree>, vs: Seq<JsonValue>, i: int)
    requires
        0 <= i < ts.len(),
        repr(m1, ts[i], vs[i]),
        forest_ids(ts).no_duplicates(),
        forall|id: NodeId| #[trigger] forest_ids(ts).contains(id) ==> m1.live(id),
        keeps_list(m1, m2, ts),
    ensures
        repr(m2, ts[i], vs[i]),
        m2.nodes[ts[i].id].key == m1.nodes[ts[i].id].key,
        m2.nodes[ts[i].id].ty == m1.nodes[ts[i].id].ty,
        m2.nodes[ts[i].id].valuestring == m1.nodes[ts[i].id].valuestring,
        m2.nodes[ts[i].id].prev == m1.nodes[ts[i].id].prev,
{
    let t = ts[i];
    crate::tree::lemma_kid_not_top(ts, i);
    crate::tree::lemma_kids_in_ids(ts, i);
    crate::tree::lemma_tops_in_ids(ts);
    assert forall|id: NodeId| #[trigger] forest_ids(t.kids).contains(id) implies m2.live(id) && m2.nodes[id] == m1.nodes[id] by {
        assert(forest_ids(ts).contains(id));
        assert(m1.live(id));
        assert(ts[ts.len() - 1].id != id);
    }
    assert(m1.live(t.id));
    assert forall|s: StrId| #[trigger] value_strs(m1, t).contains(s) implies m2.strings.contains_key(s) && m2.strings[s] == m1.strings[s] by {
        lemma_repr_strs_live(m1, t, vs[i], s);
    }
    lemma_repr_frame(m1, m2, t, vs[i]);
}

/// Establish `pre_elem` after a node is allocated and linked in an array.
proof fn lemma_linked(m1: StoreView, m1a: StoreView, m2: StoreView, ts: Seq<Tree>, tn: Tree)
    requires
        partial_list(m1, ts),
        !m1.live(tn.id),
        tn.kids.len() == 0,
        m1a == (StoreView { nodes: m1.nodes.insert(tn.id, NodeData::empty()), ..m1 }),
        ts.len() > 0 ==> m2 == m1a
            .with_node(ts.last().id, NodeData { next: Some(tn.id), ..m1a.nodes[ts.last().id] })
            .with_node(tn.id, NodeData { prev: Some(ts.last().id), ..m1a.nodes[tn.id] }),
        ts.len() == 0 ==> m2 == m1a,
    ensures
        pre_elem(m1, m2, ts, tn, false, seq![]),
{
    assert(!crate::types::spec_is_reference(0) && !crate::types::spec_string_is_const(0)) by (bit_vector);
    let n = tn.id;
    let s = tops(ts);
    let s2 = tops(ts.push(tn));
    assert(s2 =~= s.push(n));
    if ts.len() > 0 {
        let last = ts.last().id;
        assert(s[s.len() - 1] == last);
        assert(m1.live(last));
        assert(last != n);
        assert forall|i: int| 0 <= i < s2.len() - 1 implies m2.nodes[#[trigger] s2[i]].next == Some(s2[i + 1]) by {
            if i < s.len() - 1 {
                assert(s[i] != n);
                assert(s[i] != last) by {
                    assert(s[s.len() - 1] == last);
                }
            }
        }
        assert forall|i: int| 0 < i < ts.push(tn).len() implies m2.nodes[#[trigger] ts.push(tn)[i].id].prev == Some(ts.push(tn)[i - 1].id) by {
            if i < ts.len() {
                assert(ts.push(tn)[i] == ts[i]);
                assert(ts[i].id == s[i]);
                assert(s[i] != n);
            }
        }
        assert forall|i: int| 0 <= i < s2.len() implies m2.live(#[trigger] s2[i]) by {
            if i < s.len() {
                assert(m1.live(s[i]));
            }
        }
        assert(s2.no_duplicates()) by {
            assert forall|a: int, b: int| 0 <= a < b < s2.len() implies s2[a] != s2[b] by {
                if b == s.len() {
                    assert(m1.live(s2[a]));
                }
            }
        }
    } else {
        assert(s2 =~= seq![n]);
    }
    assert(m2.nodes.dom() =~= m1.nodes.dom().insert(n));
}

/// A failed element: the list with the fresh node forms a forest that grew the store.
proof fn lemma_elems_fail(
    m0: StoreView,
    m1: StoreView,
    m2: StoreView,
    m3: StoreView,
    item: NodeId,
    ts: Seq<Tree>,
    vs: Seq<JsonValue>,
    keyed: Seq<Seq<u8>>,
    is_obj: bool,
    tn: Tree,
    has_key: bool,
    kb: Seq<u8>,
)
    requires
        elems_inv(m0, m1, item, ts, vs, keyed, is_obj),
        pre_elem(m1, m2, ts, tn, has_key, kb),
        same_content(m2, m3),
    ensures
        m3.forest_valid(Some(ts.push(tn)[0].id), ts.push(tn), true),
        forest_ids(ts.push(tn)).no_duplicates(),
        grown(m0, m3, item, forest_ids(ts.push(tn)).to_set(), m3.forest_strs(ts.push(tn))),
        m3.nodes[item] == m0.nodes[item],
        m0.live(item),
{
    reveal(elems_inv);
    let fts = ts.push(tn);
    let n = tn.id;
    lemma_ids_live(m0, m1, item, ts);
    lemma_ids_push(ts, tn);
    assert(forest_ids(tn.kids) =~= Seq::<NodeId>::empty());
    assert(tree_ids(tn) =~= seq![n]);
    lemma_single_to_set(n);
    assert(tree_ids(tn).to_set() =~= set![n]);
    assert(keeps_list(m1, m3, ts));
    assert forall|i: int| 0 <= i < fts.len() implies m3.tree_valid(#[trigger] fts[i], true) by {
        if i < ts.len() {
            assert(fts[i] == ts[i]);
            lemma_repr_keep(m1, m3, ts, vs, i);
            lemma_repr_valid(m3, ts[i], vs[i], true);
        } else {
            assert(fts[i] == tn);
            assert(tops(tn.kids) =~= Seq::<NodeId>::empty());
        }
    }
    assert(m3.is_chain(Some(fts[0].id), tops(fts))) by {
        if ts.len() > 0 {
            assert(fts[0] == ts[0]);
        }
    }
    assert(forest_ids(fts).no_duplicates()) by {
        assert forall|a: int, b: int| 0 <= a < b < forest_ids(fts).len() implies forest_ids(fts)[a] != forest_ids(fts)[b] by {
            let nn = forest_ids(ts).len();
            if b >= nn && a < nn {
                assert(forest_ids(fts)[b] == n);
                assert(forest_ids(ts).contains(forest_ids(fts)[a]));
            }
        }
    }
    lemma_strs_push(m3, ts, tn);
    assert forall|id: NodeId| #[trigger] forest_ids(ts).contains(id) implies m3.nodes[id].ty == m1.nodes[id].ty
        && m3.nodes[id].valuestring == m1.nodes[id].valuestring && m3.nodes[id].key == m1.nodes[id].key by {
        assert(m1.live(id));
    }
    lemma_forest_strs_frame(m1, m3, ts);
    if has_key {
        assert(m3.tree_strs(tn) =~= set![m2.nodes[n].key.unwrap()]) by {
            assert(m3.forest_strs(tn.kids) =~= Set::<StrId>::empty());
        }
    } else {
        assert(m3.tree_strs(tn) =~= Set::<StrId>::empty()) by {
            assert(m3.forest_strs(tn.kids) =~= Set::<StrId>::empty());
        }
    }
    assert(m3.nodes.dom() =~= m0.nodes.dom() + forest_ids(fts).to_set());
    assert(m3.strings.dom() =~= m0.strings.dom() + m3.forest_strs(fts));
    assert forall|id: NodeId| m0.live(id) && id != item implies m3.nodes[id] == m0.nodes[id] by {
        assert(!forest_ids(ts).to_set().contains(id));
        assert(m1.live(id));
        if ts.len() > 0 {
            crate::tree::lemma_tops_in_ids(ts);
            assert(forest_ids(ts).contains(ts[ts.len() - 1].id));
        }
    }
    assert(m3.nodes[item] == m0.nodes[item]) by {
        assert(!forest_ids(ts).to_set().contains(item));
        assert(m1.live(item));
        if ts.len() > 0 {
            crate::tree::lemma_tops_in_ids(ts);
            assert(forest_ids(ts).contains(ts[ts.len() - 1].id));
            assert(item != ts.last().id);
        }
        assert(m3.nodes[item] == m1.nodes[item]);
    }
}

/// The stores around a parsed element.
pub open spec fn elem_parsed(m2: StoreView, m3: StoreView, n: NodeId, t: Tree, v: JsonValue) -> bool {
    &&& t.id == n
    &&& repr(m3, t, v)
    &&& tree_ids(t).no_duplicates()
    &&& grown(m2, m3, n, forest_ids(t.kids).to_set(), value_strs(m3, t))
    &&& m3.nodes[n].next == m2.nodes[n].next
    &&& m3.nodes[n].prev == m2.nodes[n].prev
    &&& m3.nodes[n].key == m2.nodes[n].key
}

proof fn lemma_step_list(m1: StoreView, m2: StoreView, m3: StoreView, ts: Seq<Tree>, tn: Tree, has_key: bool, kb: Seq<u8>, t: Tree, v: JsonValue)
    requires
        partial_list(m1, ts),
        pre_elem(m1, m2, ts, tn, has_key, kb),
        elem_parsed(m2, m3, tn.id, t, v),
    ensures
        partial_list(m3, ts.push(t)),
        keeps_list(m1, m3, ts),
{
    let ts2 = ts.push(t);
    let n = tn.id;
    assert(tops(ts2) =~= tops(ts.push(tn)));
    assert forall|i: int| 0 <= i < ts2.len() implies m3.live(#[trigger] ts2[i].id)
        && m3.nodes[ts2[i].id].next == m2.nodes[ts2[i].id].next
        && m3.nodes[ts2[i].id].prev == m2.nodes[ts2[i].id].prev by {
        if i < ts.len() {
            assert(ts2[i] == ts[i]);
            assert(tops(ts)[i] == ts[i].id);
            assert(m1.live(ts[i].id));
            assert(ts[i].id != n);
            assert(m2.live(ts[i].id));
        }
    }
    let s = tops(ts2);
    assert forall|i: int| 0 <= i < s.len() implies m3.live(#[trigger] s[i]) by {
        assert(s[i] == ts2[i].id);
    }
    assert forall|i: int| 0 <= i < s.len() - 1 implies m3.nodes[#[trigger] s[i]].next == Some(s[i + 1]) by {
        assert(s[i] == ts2[i].id);
        assert(tops(ts.push(tn))[i] == s[i]);
    }
    assert(s.last() == ts2[ts2.len() - 1].id);
    assert forall|i: int| 0 < i < ts2.len() implies m3.nodes[#[trigger] ts2[i].id].prev == Some(ts2[i - 1].id) by {
        assert(ts.push(tn)[i].id == ts2[i].id);
        assert(ts.push(tn)[i - 1].id == ts2[i - 1].id);
    }
    assert forall|id: NodeId| #[trigger] m1.live(id) && !(ts.len() > 0 && id == ts.last().id) implies m3.live(id) && m3.nodes[id] == m1.nodes[id] by {
        assert(m2.live(id));
    }
    if ts.len() > 0 {
        assert(m1.live(ts.last().id)) by { assert(tops(ts)[ts.len() - 1] == ts.last().id); }
    }
}

proof fn lemma_step_nodup(m1: StoreView, m2: StoreView, m3: StoreView, ts: Seq<Tree>, tn: Tree, t: Tree)
    requires
        forest_ids(ts).no_duplicates(),
        forall|id: NodeId| #[trigger] forest_ids(ts).contains(id) ==> m1.live(id),
        m2.nodes.dom() == m1.nodes.dom().insert(tn.id),
        !m1.live(tn.id),
        t.id == tn.id,
        tree_ids(t).no_duplicates(),
        grown(m2, m3, tn.id, forest_ids(t.kids).to_set(), value_strs(m3, t)),
    ensures
        forest_ids(ts.push(t)).no_duplicates(),
{
    let ts2 = ts.push(t);
    lemma_ids_push(ts, t);
    assert(tree_ids(t) == seq![t.id] + forest_ids(t.kids));
    assert forall|a: int, b: int| 0 <= a < b < forest_ids(ts2).len() implies forest_ids(ts2)[a] != forest_ids(ts2)[b] by {
        let nn = forest_ids(ts).len();
        if b >= nn && a < nn {
            let x = forest_ids(ts2)[a];
            assert(forest_ids(ts).contains(x));
            assert(m1.live(x));
            assert(tree_ids(t)[b - nn] == forest_ids(ts2)[b]);
            if b - nn > 0 {
                assert(forest_ids(t.kids)[b - nn - 1] == forest_ids(ts2)[b]);
                assert(forest_ids(t.kids).to_set().contains(forest_ids(ts2)[b]));
                assert(m2.live(x));
            }
        } else if b >= nn && a >= nn {
            assert(tree_ids(t)[a - nn] == forest_ids(ts2)[a]);
            assert(tree_ids(t)[b - nn] == forest_ids(ts2)[b]);
        }
    }
}

#[verifier::spinoff_prover]
#[verifier::rlimit(40)]
proof fn lemma_step_grown(
    m0: StoreView,
    m1: StoreView,
    m2: StoreView,
    m3: StoreView,
    item: NodeId,
    ts: Seq<Tree>,
    tn: Tree,
    has_key: bool,
    kb: Seq<u8>,
    t: Tree,
    v: JsonValue,
)
    requires
        grown(m0, m1, item, forest_ids(ts).to_set(), m1.forest_strs(ts)),
        m1.nodes[item] == m0.nodes[item],
        m0.live(item),
        forall|id: NodeId| #[trigger] forest_ids(ts).contains(id) ==> m1.live(id) && !m0.live(id),
        pre_elem(m1, m2, ts, tn, has_key, kb),
        elem_parsed(m2, m3, tn.id, t, v),
        keeps_list(m1, m3, ts),
    ensures
        grown(m0, m3, item, forest_ids(ts.push(t)).to_set(), m3.forest_strs(ts.push(t))),
        m3.nodes[item] == m0.nodes[item],
{
    let n = tn.id;
    let ts2 = ts.push(t);
    lemma_ids_push(ts, t);
    assert(tree_ids(t) == seq![t.id] + forest_ids(t.kids));
    crate::tree::lemma_concat_to_set(seq![t.id], forest_ids(t.kids));
    lemma_single_to_set(t.id);
    lemma_repr_plain(m3, t, v);
    lemma_strs_push(m3, ts, t);
    if ts.len() > 0 {
        crate::tree::lemma_tops_in_ids(ts);
        assert(forest_ids(ts).contains(ts[ts.len() - 1].id));
    }
    assert forall|id: NodeId| #[trigger] forest_ids(ts).contains(id) implies m3.nodes[id].ty == m1.nodes[id].ty
        && m3.nodes[id].valuestring == m1.nodes[id].valuestring && m3.nodes[id].key == m1.nodes[id].key by {
        assert(m1.live(id));
    }
    lemma_forest_strs_frame(m1, m3, ts);
    let ksid = m2.nodes[n].key;
    assert(m3.tree_strs(t) =~= value_strs(m3, t) + (if has_key { set![ksid.unwrap()] } else { Set::<StrId>::empty() }));
    assert(m3.nodes.dom() =~= m0.nodes.dom() + forest_ids(ts2).to_set());
    assert(m3.strings.dom() =~= m0.strings.dom() + m3.forest_strs(ts2));
    assert forall|id: NodeId| m0.live(id) && id != item implies m3.nodes[id] == m0.nodes[id] by {
        assert(!forest_ids(ts).to_set().contains(id));
        assert(m1.live(id));
    }
    assert(m1.live(item));
}

/// A parsed element joins the list.
proof fn lemma_elems_step(
    m0: StoreView,
    m1: StoreView,
    m2: StoreView,
    m3: StoreView,
    item: NodeId,
    ts: Seq<Tree>,
    vs: Seq<JsonValue>,
    keyed: Seq<Seq<u8>>,
    is_obj: bool,
    tn: Tree,
    kb: Seq<u8>,
    t: Tree,
    v: JsonValue,
)
    requires
        elems_inv(m0, m1, item, ts, vs, keyed, is_obj),
        pre_elem(m1, m2, ts, tn, is_obj, kb),
        elem_parsed(m2, m3, tn.id, t, v),
    ensures
        elems_inv(m0, m3, item, ts.push(t), vs.push(v), keyed.push(kb), is_obj),
{
    reveal(elems_inv);
    let n = tn.id;
    let ts2 = ts.push(t);
    let vs2 = vs.push(v);
    lemma_ids_live(m0, m1, item, ts);
    lemma_step_list(m1, m2, m3, ts, tn, is_obj, kb, t, v);
    lemma_step_nodup(m1, m2, m3, ts, tn, t);
    lemma_step_grown(m0, m1, m2, m3, item, ts, tn, is_obj, kb, t, v);
    assert forall|i: int| 0 <= i < ts2.len() implies repr(m3, #[trigger] ts2[i], vs2[i]) && key_ok(m3, ts2[i].id, is_obj, keyed.push(kb)[i]) by {
        if i < ts.len() {
            assert(ts2[i] == ts[i]);
            assert(vs2[i] == vs[i]);
            assert(keyed.push(kb)[i] == keyed[i]);
            lemma_repr_keep(m1, m3, ts, vs, i);
        } else {
            assert(ts2[i] == t);
            assert(vs2[i] == v);
            assert(keyed.push(kb)[i] == kb);
        }
    }
}

/// A finished list is the forest below its head.
proof fn lemma_list_forest(m0: StoreView, m: StoreView, item: NodeId, ts: Seq<Tree>, vs: Seq<JsonValue>, keyed: Seq<Seq<u8>>, is_obj: bool)
    requires
        elems_inv(m0, m, item, ts, vs, keyed, is_obj),
    ensures
        m.forest_valid(if ts.len() == 0 { None } else { Some(ts[0].id) }, ts, true),
        forest_ids(ts).no_duplicates(),
{
    reveal(elems_inv);
    assert forall|i: int| 0 <= i < ts.len() implies m.tree_valid(#[trigger] ts[i], true) by {
        lemma_repr_valid(m, ts[i], vs[i], true);
    }
}

/// A finished list under `item`: the first element's `prev` set to the last, the type
/// and the child of `item` set.
proof fn lemma_list_finish(m0: StoreView, m4: StoreView, m5: StoreView, item: NodeId, ts: Seq<Tree>, vs: Seq<JsonValue>, keyed: Seq<Seq<u8>>, is_obj: bool)
    requires
        elems_inv(m0, m4, item, ts, vs, keyed, is_obj),
        ts.len() > 0,
        blank(m0.nodes[item]),
        m5.nodes.dom() == m4.nodes.dom(),
        m5.strings == m4.strings,
        m5.fail_allocs == m4.fail_allocs,
        m5.str_slots == m4.str_slots,
        forall|id: NodeId| id != ts[0].id && id != item ==> m5.nodes[id] == m4.nodes[id],
        m5.nodes[ts[0].id] == (NodeData { prev: Some(ts.last().id), ..m4.nodes[ts[0].id] }),
        m5.nodes[item] == (NodeData { ty: if is_obj { OBJECT } else { ARRAY }, child: Some(ts[0].id), ..m4.nodes[item] }),
    ensures
        repr(m5, (Tree { id: item, kids: ts }), (if is_obj { JsonValue::Object(keyed, vs) } else { JsonValue::Array(vs) })),
        tree_ids((Tree { id: item, kids: ts })).no_duplicates(),
        grown(m0, m5, item, forest_ids(ts).to_set(), value_strs(m5, (Tree { id: item, kids: ts }))),
        m5.nodes[item].next == m0.nodes[item].next,
        m5.nodes[item].prev == m0.nodes[item].prev,
        m5.nodes[item].key == m0.nodes[item].key,
{
    reveal(elems_inv);
    let t = Tree { id: item, kids: ts };
    let h = ts[0].id;
    lemma_ids_live(m0, m4, item, ts);
    crate::tree::lemma_tops_in_ids(ts);
    assert(forest_ids(ts).contains(h));
    assert(h != item);
    let s = tops(ts);
    assert(s[0] == h);
    assert(s.last() == ts.last().id);
    assert forall|i: int| 0 <= i < s.len() implies m5.live(#[trigger] s[i]) && m5.nodes[s[i]].next == m4.nodes[s[i]].next by {
        assert(s[i] == ts[i].id);
        assert(forest_ids(ts).contains(ts[i].id));
    }
    assert forall|i: int| 0 < i < s.len() implies m5.nodes[#[trigger] s[i]].prev == Some(s[i - 1]) by {
        assert(s[i] == ts[i].id);
        assert(s[i - 1] == ts[i - 1].id);
        assert(s.no_duplicates());
        assert(s[0] != s[i]);
        assert(forest_ids(ts).contains(ts[i].id));
    }
    assert(m5.is_list(m5.nodes[item].child, tops(ts)));
    assert forall|i: int| 0 <= i < ts.len() implies repr(m5, #[trigger] ts[i], vs[i]) && key_ok(m5, ts[i].id, is_obj, keyed[i]) by {
        crate::tree::lemma_kid_not_top(ts, i);
        crate::tree::lemma_kids_in_ids(ts, i);
        assert forall|id: NodeId| #[trigger] forest_ids(ts[i].kids).contains(id) implies m5.live(id) && m5.nodes[id] == m4.nodes[id] by {
            assert(forest_ids(ts).contains(id));
            assert(ts[0].id != id);
        }
        assert forall|x: StrId| #[trigger] value_strs(m4, ts[i]).contains(x) implies m5.strings.contains_key(x) && m5.strings[x] == m4.strings[x] by {
            lemma_repr_strs_live(m4, ts[i], vs[i], x);
        }
        assert(forest_ids(ts).contains(ts[i].id));
        lemma_repr_frame(m4, m5, ts[i], vs[i]);
    }
    assert(tree_ids(t) == seq![item] + forest_ids(ts));
    assert(tree_ids(t).no_duplicates()) by {
        assert forall|a: int, b: int| 0 <= a < b < tree_ids(t).len() implies tree_ids(t)[a] != tree_ids(t)[b] by {
            if a == 0 {
                assert(tree_ids(t)[b] == forest_ids(ts)[b - 1]);
                assert(forest_ids(ts).contains(tree_ids(t)[b]));
            } else {
                assert(tree_ids(t)[a] == forest_ids(ts)[a - 1]);
                assert(tree_ids(t)[b] == forest_ids(ts)[b - 1]);
            }
        }
    }
    assert forall|id: NodeId| #[trigger] forest_ids(ts).contains(id) implies m5.nodes[id].ty == m4.nodes[id].ty
        && m5.nodes[id].valuestring == m4.nodes[id].valuestring && m5.nodes[id].key == m4.nodes[id].key by {
    }
    lemma_forest_strs_frame(m4, m5, ts);
    assert(value_strs(m5, t) =~= m5.forest_strs(ts));
    assert(m5.nodes.dom() =~= m0.nodes.dom() + forest_ids(ts).to_set());
    assert forall|id: NodeId| m0.live(id) && id != item implies m5.nodes[id] == m0.nodes[id] by {
        assert(!forest_ids(ts).to_set().contains(id));
    }
}


/// Facts of a list under construction that the loops use.
proof fn lemma_elems_inv_facts(m0: StoreView, m: StoreView, item: NodeId, ts: Seq<Tree>, vs: Seq<JsonValue>, keyed: Seq<Seq<u8>>, is_obj: bool)
    requires
        elems_inv(m0, m, item, ts, vs, keyed, is_obj),
    ensures
        partial_list(m, ts),
        m.fail_allocs == m0.fail_allocs,
        ts.len() == vs.len(),
        keyed.len() == ts.len(),
        forall|k: int| 0 <= k < ts.len() ==> m.live(#[trigger] ts[k].id) && !m0.live(ts[k].id),
        m0.live(item),
        grown(m0, m, item, forest_ids(ts).to_set(), m.forest_strs(ts)),
        m.nodes[item] == m0.nodes[item],
{
    reveal(elems_inv);
    lemma_ids_live(m0, m, item, ts);
    crate::tree::lemma_tops_in_ids(ts);
}

/// What a parse yields, as the element loops use it.
proof fn lemma_parsed_use(before: StoreView, after: StoreView, item: NodeId, res: (Option<JsonValue>, int), ok: bool, t: Tree, v: JsonValue, pos: int)
    requires
        parsed_into(before, after, item, res, ok, t, v, pos),
    ensures
        res == (if ok { Some(v) } else { None::<JsonValue> }, pos),
        !ok ==> same_content(before, after),
        ok ==> elem_parsed(before, after, item, t, v),
{
    reveal(parsed_into);
}

/// A failed parse that left the store's content as it was.
proof fn lemma_parsed_fail(before: StoreView, after: StoreView, item: NodeId, res: (Option<JsonValue>, int), t: Tree, v: JsonValue, pos: int)
    requires
        res == (None::<JsonValue>, pos),
        same_content(before, after),
    ensures
        parsed_into(before, after, item, res, false, t, v, pos),
{
    reveal(parsed_into);
}

/// One step of `sp_elems`: the element after the byte at `p`, then a comma or the end.
proof fn lemma_elems_unfold<F: Fn(&[u8]) -> (u64, i32)>(s: Seq<u8>, p: int, d: int, f: F)
    requires
        0 <= p < s.len(),
        0 <= d <= 1000,
    ensures
        p < skip_ws(s, p + 1) <= s.len(),
        sp_elems(s, p, d, f) == (match sp_value(s, skip_ws(s, p + 1), d, f) {
            (None, r) => (None, r),
            (Some(v), r) => {
                let r2 = skip_ws(s, r);
                if r2 < s.len() && s[r2] == 44 {
                    if r2 > p { join_elems(seq![v], sp_elems(s, r2, d, f)) } else { (None, r2) }
                } else if r2 < s.len() && s[r2] == 93 {
                    (Some(seq![v]), r2 + 1)
                } else {
                    (None, r2)
                }
            },
        }),
{
    lemma_skip_ws(s, p + 1);
    let q = skip_ws(s, p + 1);
    match sp_value(s, q, d, f) {
        (Some(v), r) => {
            let r2 = skip_ws(s, r);
            if r2 < s.len() && s[r2] == 44 && r2 > p {
                match sp_elems(s, r2, d, f) {
                    (Some(rest), e) => {},
                    (None, e) => {},
                }
            }
        },
        (None, r) => {},
    }
}

/// The parsed elements so far joined with the rest of the parse, one element on.
proof fn lemma_elems_join<F: Fn(&[u8]) -> (u64, i32)>(s: Seq<u8>, p0: int, p: int, d: int, f: F, vs: Seq<JsonValue>, v: JsonValue, r2: int)
    requires
        sp_elems(s, p0, d, f) == join_elems(vs, sp_elems(s, p, d, f)),
        r2 > p,
        sp_elems(s, p, d, f) == (if r2 < s.len() && s[r2] == 44 {
            join_elems(seq![v], sp_elems(s, r2, d, f))
        } else if r2 < s.len() && s[r2] == 93 {
            (Some(seq![v]), r2 + 1)
        } else {
            (None, r2)
        }),
    ensures
        r2 < s.len() && s[r2] == 44 ==> sp_elems(s, p0, d, f) == join_elems(vs.push(v), sp_elems(s, r2, d, f)),
        !(r2 < s.len() && s[r2] == 44) ==> sp_elems(s, p0, d, f) == (if r2 < s.len() && s[r2] == 93 {
            (Some(vs.push(v)), r2 + 1)
        } else {
            (None::<Seq<JsonValue>>, r2)
        }),
{
    match sp_elems(s, r2, d, f) {
        (Some(rest), e) => { assert(vs + (seq![v] + rest) =~= vs.push(v) + rest); },
        (None, e) => {},
    }
    assert(vs + seq![v] =~= vs.push(v));
}


/// The members after the one parsed at `p`: a comma and more members, or the closing brace.
pub open spec fn members_rest<F: Fn(&[u8]) -> (u64, i32)>(s: Seq<u8>, p: int, d: int, f: F, key: Seq<u8>, v: JsonValue, r3: int) -> (Option<(Seq<Seq<u8>>, Seq<JsonValue>)>, int) {
    let r4 = skip_ws(s, r3);
    if r4 < s.len() && s[r4] == 44 {
        if r4 > p { join_members(seq![key], seq![v], sp_members(s, r4, d, f)) } else { (None, r4) }
    } else if r4 < s.len() && s[r4] == 125 {
        (Some((seq![key], seq![v])), r4 + 1)
    } else {
        (None, r4)
    }
}

/// One step of `sp_members`: a key, a colon and a value after the byte at `p`.
proof fn lemma_members_unfold<F: Fn(&[u8]) -> (u64, i32)>(s: Seq<u8>, p: int, d: int, f: F)
    requires
        0 <= p,
        p + 1 < s.len(),
        0 <= d <= 1000,
    ensures
        p < skip_ws(s, p + 1) < s.len(),
        sp_members(s, p, d, f) == (match spec_parse_string(s, skip_ws(s, p + 1)) {
            Err(e) => (None, e),
            Ok((key, r)) => {
                let r2 = skip_ws(s, r);
                if !(r2 < s.len() && s[r2] == 58) {
                    (None, r2)
                } else {
                    match sp_value(s, skip_ws(s, r2 + 1), d, f) {
                        (None, r3) => (None, r3),
                        (Some(v), r3) => members_rest(s, p, d, f, key, v, r3),
                    }
                }
            },
        }),
{
    lemma_skip_ws(s, p + 1);
    let q = skip_ws(s, p + 1);
    crate::string::lemma_parse_string_bounds(s, q);
    match spec_parse_string(s, q) {
        Ok((key, r)) => {
            lemma_skip_ws(s, r);
            let r2 = skip_ws(s, r);
            if r2 < s.len() && s[r2] == 58 {
                lemma_skip_ws(s, r2 + 1);
                let q2 = skip_ws(s, r2 + 1);
                match sp_value(s, q2, d, f) {
                    (Some(v), r3) => {
                        let r4 = skip_ws(s, r3);
                        if r4 < s.len() && s[r4] == 44 && r4 > p {
                            match sp_members(s, r4, d, f) {
                                (Some((ks, vs)), e) => {},
                                (None, e) => {},
                            }
                        }
                    },
                    (None, r3) => {},
                }
            }
        },
        Err(e) => {},
    }
}

/// The members so far joined with the rest of the parse, one member on.
proof fn lemma_members_join<F: Fn(&[u8]) -> (u64, i32)>(
    s: Seq<u8>,
    p0: int,
    p: int,
    d: int,
    f: F,
    ks: Seq<Seq<u8>>,
    vs: Seq<JsonValue>,
    key: Seq<u8>,
    v: JsonValue,
    r3: int,
    r4: int,
)
    requires
        sp_members(s, p0, d, f) == join_members(ks, vs, sp_members(s, p, d, f)),
        sp_members(s, p, d, f) == members_rest(s, p, d, f, key, v, r3),
        r4 == skip_ws(s, r3),
        r4 > p,
    ensures
        r4 < s.len() && s[r4] == 44 ==> sp_members(s, p0, d, f) == join_members(ks.push(key), vs.push(v), sp_members(s, r4, d, f)),
        !(r4 < s.len() && s[r4] == 44) ==> sp_members(s, p0, d, f) == (if r4 < s.len() && s[r4] == 125 {
            (Some((ks.push(key), vs.push(v))), r4 + 1)
        } else {
            (None::<(Seq<Seq<u8>>, Seq<JsonValue>)>, r4)
        }),
{
    match sp_members(s, r4, d, f) {
        (Some((rk, rv)), e) => {
            assert(ks + (seq![key] + rk) =~= ks.push(key) + rk);
            assert(vs + (seq![v] + rv) =~= vs.push(v) + rv);
        },
        (None, e) => {},
    }
    assert(ks + seq![key] =~= ks.push(key));
    assert(vs + seq![v] =~= vs.push(v));
}

/// Establish `pre_elem` for an object member: the fresh node linked, its key parsed.
proof fn lemma_keyed(m1: StoreView, m1b: StoreView, m2: StoreView, ts: Seq<Tree>, tn: Tree, sid: StrId, kb: Seq<u8>)
    requires
        pre_elem(m1, m1b, ts, tn, false, seq![]),
        !m1b.strings.contains_key(sid),
        m2.nodes == m1b.nodes.insert(tn.id, NodeData { ty: STRING, key: Some(sid), ..m1b.nodes[tn.id] }),
        m2.strings == m1b.strings.insert(sid, kb),
        m2.fail_allocs == m1b.fail_allocs,
        m2.str_slots >= m1b.str_slots,
    ensures
        pre_elem(m1, m2, ts, tn, true, kb),
{
    assert(!crate::types::spec_is_reference(16) && !crate::types::spec_string_is_const(16)) by (bit_vector);
    let n = tn.id;
    let s = tops(ts.push(tn));
    assert forall|i: int| 0 <= i < s.len() implies m2.live(#[trigger] s[i]) by {}
    assert forall|i: int| 0 <= i < s.len() - 1 implies m2.nodes[#[trigger] s[i]].next == Some(s[i + 1]) by {
        if s[i] == n {
            assert(m1b.nodes[s[i]].next == Some(s[i + 1]));
        }
    }
    assert forall|i: int| 0 < i < ts.push(tn).len() implies m2.nodes[#[trigger] ts.push(tn)[i].id].prev == Some(ts.push(tn)[i - 1].id) by {}
    assert(m2.nodes.dom() =~= m1.nodes.dom().insert(n));
    assert forall|id: NodeId| #[trigger] m1.live(id) && !(ts.len() > 0 && id == ts.last().id) implies m2.live(id) && m2.nodes[id] == m1.nodes[id] by {
        assert(id != n);
    }
    if ts.len() > 0 {
        assert(ts.last().id != n) by {
            assert(tops(ts.push(tn))[ts.len() - 1] == ts.last().id);
            assert(tops(ts.push(tn))[ts.len() as int] == n);
        }
    }
    assert forall|x: StrId| #[trigger] m1.strings.contains_key(x) implies m2.strings.contains_key(x) && m2.strings[x] == m1.strings[x] by {
        assert(x != sid);
    }
}

} // verus!

verus! {

/// Where the scan of a document starts: past a UTF-8 byte order mark when more than
/// four bytes are given.
pub open spec fn doc_start(s: Seq<u8>) -> int {
    if s.len() > 4 && s[0] == 0xEF && s[1] == 0xBB && s[2] == 0xBF { 3 } else { 0 }
}

/// The offset a failed parse reports: the stop position, or the last byte when the scan
/// ran off the end.
pub open spec fn err_pos(s: Seq<u8>, p: int) -> int {
    if p < s.len() { p } else if s.len() > 0 { s.len() - 1 } else { 0 }
}

/// What a document parse gives: the value and the offset after it (after the trailing
/// whitespace when a terminating NUL is required), or the error offset.
pub open spec fn spec_parse<F: Fn(&[u8]) -> (u64, i32)>(s: Seq<u8>, require_nul: bool, f: F) -> Result<(JsonValue, int), int> {
    if s.len() == 0 {
        Err(0)
    } else {
        match sp_value(s, skip_ws(s, doc_start(s)), 0, f) {
            (None, p) => Err(err_pos(s, p)),
            (Some(v), p) => if require_nul {
                let p2 = skip_ws(s, p);
                if p2 >= s.len() || s[p2] != 0 { Err(err_pos(s, p2)) } else { Ok((v, p2)) }
            } else {
                Ok((v, p))
            },
        }
    }
}

/// `root` is a fresh detached node of `after` whose tree `t` holds `v`; the rest of the store
/// is `before`, with new nodes and strings for the tree only.
pub open spec fn parsed_tree(before: StoreView, after: StoreView, root: NodeId, t: Tree, v: JsonValue) -> bool {
    &&& t.id == root
    &&& !before.live(root)
    &&& repr(after, t, v)
    &&& tree_ids(t).no_duplicates()
    &&& grown(before, after, root, tree_ids(t).to_set(), value_strs(after, t))
    &&& after.nodes[root].next is None
    &&& after.nodes[root].prev is None
    &&& after.nodes[root].key is None
    &&& after.has_forest(Some(root), true)
    &&& after.forest(Some(root), true) == seq![t]
}

/// The outcome of a document parse from `before` to `after`.
pub open spec fn parse_outcome<F: Fn(&[u8]) -> (u64, i32)>(
    before: StoreView,
    after: StoreView,
    s: Seq<u8>,
    require_nul: bool,
    f: F,
    r: Result<(NodeId, usize), ParseError>,
) -> bool {
    if s.len() == 0 || before.fail_allocs {
        r == Err::<(NodeId, usize), ParseError>(ParseError { offset: 0 }) && after == before
    } else {
        match spec_parse(s, require_nul, f) {
            Err(e) => r == Err::<(NodeId, usize), ParseError>(ParseError { offset: e as usize })
                && same_content(before, after),
            Ok((v, end)) => r is Ok && r->Ok_0.1 == end
                && exists|t: Tree| #[trigger] parsed_tree(before, after, r->Ok_0.0, t, v),
        }
    }
}

/// Deleting a freshly parsed document tree gives back the content of the store before it.
proof fn lemma_top_restores(before: StoreView, m: StoreView, t: Tree)
    requires
        !before.live(t.id),
        m.live(t.id),
        !crate::types::spec_is_reference(m.nodes[t.id].ty),
        m.nodes[t.id].key is None,
        grown(before, m, t.id, tree_ids(t).to_set(), value_strs(m, t)),
    ensures
        same_content(before, m.after_delete(seq![t])),
{
    crate::tree::lemma_forest_single(m, t);
    let a = m.after_delete(seq![t]);
    let ids = tree_ids(t).to_set();
    assert(m.tree_strs(t) =~= value_strs(m, t));
    assert forall|id: NodeId| #[trigger] before.nodes.contains_key(id) implies a.nodes.contains_key(id)
        && a.nodes[id] == before.nodes[id] by {
        assert(!ids.contains(id));
        assert(id != t.id);
        assert(before.live(id));
        assert(m.nodes.contains_key(id));
        assert(m.nodes[id] == before.nodes[id]);
    }
    assert(a.nodes =~= before.nodes);
    assert(a.strings =~= before.strings);
}

/// The root's own growth composed with the growth below it.
proof fn lemma_top_grown(before: StoreView, m1: StoreView, m3: StoreView, t: Tree)
    requires
        !before.live(t.id),
        m1 == (StoreView { nodes: before.nodes.insert(t.id, NodeData::empty()), ..before }),
        grown(m1, m3, t.id, forest_ids(t.kids).to_set(), value_strs(m3, t)),
    ensures
        grown(before, m3, t.id, tree_ids(t).to_set(), value_strs(m3, t)),
{
    assert(tree_ids(t) == seq![t.id] + forest_ids(t.kids));
    crate::tree::lemma_concat_to_set(seq![t.id], forest_ids(t.kids));
    lemma_single_to_set(t.id);
    let ids = tree_ids(t).to_set();
    assert(ids == set![t.id] + forest_ids(t.kids).to_set());
    assert(m3.nodes.dom() =~= before.nodes.dom() + ids);
    assert(ids.disjoint(before.nodes.dom())) by {
        assert forall|id: NodeId| ids.contains(id) implies !before.nodes.dom().contains(id) by {
            if id != t.id {
                assert(forest_ids(t.kids).to_set().contains(id));
                assert(!m1.nodes.dom().contains(id));
            }
        }
    }
    assert forall|id: NodeId| before.live(id) && id != t.id implies m3.nodes[id] == before.nodes[id] by {
        assert(m1.live(id));
        assert(m1.nodes[id] == before.nodes[id]);
    }
}

/// Parse a whole document into a fresh tree; on success also the offset after the value.
pub fn parse_with_end<F: Fn(&[u8]) -> (u64, i32)>(
    store: &mut SafeStore,
    input: &[u8],
    opts: ParseOpts,
    conv: &F,
) -> (r: Result<(NodeId, usize), ParseError>)
    requires
        num_parse_ok(*conv),
    ensures
        parse_outcome(old(store)@, final(store)@, input@, opts.require_null_terminated, *conv, r),
{
    let ghost m0 = store@;
    if input.len() == 0 {
        return Err(ParseError { offset: 0 });
    }
    let item = match store.alloc_node() {
        Some(n) => n,
        None => return Err(ParseError { offset: 0 }),
    };
    let ghost m1 = store@;
    let mut pos: usize = 0;
    if input.len() > 4 && input[0] == 0xEF && input[1] == 0xBB && input[2] == 0xBF {
        pos = 3;
    }
    skip_whitespace(input, &mut pos);
    let ghost q = pos as int;
    let (ok, Ghost(t), Ghost(v)) = parse_value(store, item, input, &mut pos, 0, conv);
    let ghost m3 = store@;
    proof { lemma_parsed_use(m1, m3, item, sp_value(input@, q, 0, *conv), ok, t, v, pos as int); }
    if !ok {
        let ghost leaf = Tree { id: item, kids: seq![] };
        proof {
            assert(!crate::types::spec_is_reference(0)) by (bit_vector);
            assert(tops(leaf.kids) =~= Seq::<NodeId>::empty());
            assert(tops(seq![leaf]) =~= seq![item]);
            assert(forest_ids(leaf.kids) =~= Seq::<NodeId>::empty());
            assert(m3.forest_strs(leaf.kids) =~= Set::<StrId>::empty());
            assert(value_strs(m3, leaf) =~= Set::<StrId>::empty());
            assert(tree_ids(leaf) =~= seq![item]);
            crate::tree::lemma_forest_single(m3, leaf);
            lemma_single_to_set(item);
            assert(m3.nodes[item] == NodeData::empty());
            assert(m3.tree_valid(leaf, true));
            assert(seq![leaf][0] == leaf);
            assert(m3.forest_valid(Some(item), seq![leaf], true));
            assert(forest_ids(seq![leaf]).no_duplicates());
            assert(m3.nodes.dom() =~= m0.nodes.dom() + tree_ids(leaf).to_set());
            assert(m3.strings.dom() =~= m0.strings.dom() + value_strs(m3, leaf));
            crate::tree::lemma_forest_is(m3, Some(item), seq![leaf], true);
            lemma_top_restores(m0, m3, leaf);
        }
        store.delete(Some(item));
        let e = if pos < input.len() { pos } else { input.len() - 1 };
        return Err(ParseError { offset: e });
    }
    proof {
        lemma_top_grown(m0, m1, m3, t);
        lemma_repr_valid(m3, t, v, true);
        lemma_repr_plain(m3, t, v);
        crate::tree::lemma_forest_single(m3, t);
        assert(tops(seq![t]) =~= seq![item]);
        assert(seq![t][0] == t);
        assert(m3.nodes[item].next is None);
        assert(m3.forest_valid(Some(item), seq![t], true));
        crate::tree::lemma_forest_is(m3, Some(item), seq![t], true);
    }
    if opts.require_null_terminated {
        skip_whitespace(input, &mut pos);
        if pos >= input.len() || input[pos] != 0 {
            proof { lemma_top_restores(m0, m3, t); }
            store.delete(Some(item));
            let e = if pos < input.len() { pos } else { input.len() - 1 };
            return Err(ParseError { offset: e });
        }
    }
    proof {
        assert(q == skip_ws(input@, doc_start(input@)));
        assert(sp_value(input@, q, 0, *conv).0 == Some(v));
        assert(spec_parse(input@, opts.require_null_terminated, *conv) == Ok::<(JsonValue, int), int>((v, pos as int)));
        assert(parsed_tree(m0, store@, item, t, v));
        assert(!m0.fail_allocs);
        let rr = Ok::<(NodeId, usize), ParseError>((item, pos));
        assert(rr->Ok_0.0 == item);
        assert(parse_outcome(m0, store@, input@, opts.require_null_terminated, *conv, rr));
    }
    Ok((item, pos))
}

/// Parse a whole document into a fresh tree.
pub fn parse<F: Fn(&[u8]) -> (u64, i32)>(
    store: &mut SafeStore,
    input: &[u8],
    opts: ParseOpts,
    conv: &F,
) -> (r: Result<NodeId, ParseError>)
    requires
        num_parse_ok(*conv),
    ensures
        parse_outcome(old(store)@, final(store)@, input@, opts.require_null_terminated, *conv,
            match r { Ok(root) => Ok((root, parse_end(input@, opts.require_null_terminated, *conv))), Err(e) => Err(e) }),
{
    match parse_with_end(store, input, opts, conv) {
        Ok((root, _end)) => Ok(root),
        Err(e) => Err(e),
    }
}

/// The end offset of a successful document parse.
pub open spec fn parse_end<F: Fn(&[u8]) -> (u64, i32)>(s: Seq<u8>, require_nul: bool, f: F) -> usize {
    match spec_parse(s, require_nul, f) {
        Ok((v, end)) => end as usize,
        Err(e) => 0,
    }
}

} // verus!

verus! {

/// Forest ids of a list with one more tree.
pub proof fn lemma_ids_push_pub(ts: Seq<Tree>, t: Tree)
    ensures
        forest_ids(ts.push(t)) == forest_ids(ts) + tree_ids(t),
        forall|id: NodeId| #[trigger] forest_ids(ts.push(t)).contains(id) <==> (forest_ids(ts).contains(id) || tree_ids(t).contains(id)),
        forest_ids(ts.push(t)).to_set() == forest_ids(ts).to_set() + tree_ids(t).to_set(),
{
    lemma_ids_push(ts, t);
}

} // verus!

verus! {

pub proof fn lemma_single_to_set_pub(x: NodeId)
    ensures
        seq![x].to_set() == set![x],
{
    lemma_single_to_set(x);
}

} // verus!
