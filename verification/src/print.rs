//! Printer: formatted, unformatted and preallocated output.
use vstd::prelude::*;
use crate::store::{NodeId, SafeStore, StoreView};
use crate::tree::{Tree, tops, tree_ids};
use crate::types::{spec_type_kind, NULL, FALSE, TRUE, NUMBER, STRING, ARRAY, OBJECT, RAW, NESTING_LIMIT};
use crate::string::spec_escape_string;
use crate::parse::{lit_null, lit_false, lit_true};

verus! {

/// Whether the output is indented.
#[derive(Clone, Copy, Debug)]
pub struct PrintOpts {
    pub format: bool,
}

/// A print that did not complete.
pub struct PrintError;

/// The largest size a single print may reach (`INT_MAX`).
pub const PRINT_MAX: usize = 2147483647;

/// A number formatter that can be called on every value and gives one text for one value.
pub open spec fn fmt_ok<G: Fn(u64, i32) -> Vec<u8>>(g: G) -> bool {
    &&& forall|b: u64, i: i32| #[trigger] g.requires((b, i))
    &&& forall|b: u64, i: i32, r1: Vec<u8>, r2: Vec<u8>|
        #[trigger] g.ensures((b, i), r1) && #[trigger] g.ensures((b, i), r2) ==> r1@ == r2@
}

pub open spec fn fmt_trigger(s: Seq<u8>) -> bool {
    true
}

/// The text a formatter gives for a number (IEEE-754 bits, saturated integer).
pub open spec fn fmt_of<G: Fn(u64, i32) -> Vec<u8>>(g: G, b: u64, i: i32) -> Seq<u8> {
    choose|s: Seq<u8>| #![trigger fmt_trigger(s)] exists|r: Vec<u8>| r@ == s && #[trigger] g.ensures((b, i), r)
}

fn call_fmt<G: Fn(u64, i32) -> Vec<u8>>(g: &G, b: u64, i: i32) -> (r: Vec<u8>)
    requires
        fmt_ok(*g),
    ensures
        r@ == fmt_of(*g, b, i),
{
    let r = g(b, i);
    assert(fmt_trigger(r@));
    assert(exists|x: Vec<u8>| x@ == r@ && #[trigger] g.ensures((b, i), x));
    r
}

pub open spec fn tabs(n: nat) -> Seq<u8> {
    Seq::new(n, |i: int| 9u8)
}

/// The separator after an element of an array that is not the last.
pub open spec fn item_sep(fmt: bool) -> Seq<u8> {
    if fmt { seq![44u8, 32u8] } else { seq![44u8] }
}

/// The text of the tree `t` printed at nesting `depth`, or `None` where printing fails.
pub open spec fn render<G: Fn(u64, i32) -> Vec<u8>>(m: StoreView, t: Tree, fmt: bool, depth: nat, g: G) -> Option<Seq<u8>>
    decreases t, 0nat,
{
    let d = m.nodes[t.id];
    let k = spec_type_kind(d.ty);
    if k == NULL {
        Some(lit_null())
    } else if k == FALSE {
        Some(lit_false())
    } else if k == TRUE {
        Some(lit_true())
    } else if k == NUMBER {
        Some(fmt_of(g, d.valuedouble, d.valueint))
    } else if k == RAW {
        m.str_bytes(d.valuestring)
    } else if k == STRING {
        Some(spec_escape_string(m.str_bytes(d.valuestring)))
    } else if k == ARRAY {
        if depth >= 1000 {
            None
        } else {
            match items_upto(m, t.kids, t.kids.len(), fmt, depth + 1, g) {
                Some(x) => Some(seq![91u8] + x + seq![93u8]),
                None => None,
            }
        }
    } else if k == OBJECT {
        if depth >= 1000 {
            None
        } else {
            match members_upto(m, t.kids, t.kids.len(), fmt, depth + 1, g) {
                Some(x) => Some((if fmt { seq![123u8, 10u8] } else { seq![123u8] }) + x
                    + (if fmt { tabs(depth) } else { Seq::<u8>::empty() }) + seq![125u8]),
                None => None,
            }
        }
    } else {
        None
    }
}

/// The first `k` elements of an array, each followed by a separator unless it is the last.
pub open spec fn items_upto<G: Fn(u64, i32) -> Vec<u8>>(m: StoreView, ts: Seq<Tree>, k: nat, fmt: bool, depth: nat, g: G) -> Option<Seq<u8>>
    decreases ts, k,
{
    if k == 0 || k > ts.len() {
        if k == 0 { Some(Seq::<u8>::empty()) } else { None }
    } else {
        match items_upto(m, ts, (k - 1) as nat, fmt, depth, g) {
            None => None,
            Some(a) => match render(m, ts[k - 1], fmt, depth, g) {
                None => None,
                Some(b) => Some(a + b + (if k < ts.len() { item_sep(fmt) } else { Seq::<u8>::empty() })),
            },
        }
    }
}

/// One member of an object: indentation, key, colon, value, separator, line end.
pub open spec fn member_text(m: StoreView, t: Tree, v: Seq<u8>, last: bool, fmt: bool, depth: nat) -> Seq<u8> {
    (if fmt { tabs(depth) } else { Seq::<u8>::empty() })
    + spec_escape_string(m.str_bytes(m.nodes[t.id].key))
    + (if fmt { seq![58u8, 9u8] } else { seq![58u8] })
    + v
    + (if !last { seq![44u8] } else { Seq::<u8>::empty() })
    + (if fmt { seq![10u8] } else { Seq::<u8>::empty() })
}

/// The first `k` members of an object.
pub open spec fn members_upto<G: Fn(u64, i32) -> Vec<u8>>(m: StoreView, ts: Seq<Tree>, k: nat, fmt: bool, depth: nat, g: G) -> Option<Seq<u8>>
    decreases ts, k,
{
    if k == 0 || k > ts.len() {
        if k == 0 { Some(Seq::<u8>::empty()) } else { None }
    } else {
        match members_upto(m, ts, (k - 1) as nat, fmt, depth, g) {
            None => None,
            Some(a) => match render(m, ts[k - 1], fmt, depth, g) {
                None => None,
                Some(b) => Some(a + member_text(m, ts[k - 1], b, k == ts.len(), fmt, depth)),
            },
        }
    }
}

} // verus!

verus! {

/// Every string handle of the tree is one that reading does not reject.
pub open spec fn strs_ok(m: StoreView, t: Tree) -> bool {
    forall|id: NodeId| #[trigger] tree_ids(t).contains(id) ==> m.str_ok(m.nodes[id].valuestring) && m.str_ok(m.nodes[id].key)
}

/// A print at `total` bytes that does not complete: the text and its terminating NUL
/// exceed the buffer.
pub open spec fn too_long(total: int, limit: int) -> bool {
    total + 1 > limit
}

/// The outcome of printing `res` after `old_buf`: on success the text is appended; on
/// failure there is no text, or it does not fit, or one piece of it exceeds `PRINT_MAX`.
pub open spec fn wrote(old_buf: Seq<u8>, new_buf: Seq<u8>, res: Option<Seq<u8>>, ok: bool, limit: int) -> bool {
    &&& ok ==> res is Some && new_buf == old_buf + res.unwrap() && new_buf.len() + 1 <= limit
    &&& !ok ==> (res is None || too_long((old_buf.len() + res.unwrap().len()) as int, limit) || res.unwrap().len() > PRINT_MAX)
}

/// An output buffer with a fixed limit: `PRINT_MAX` when it may grow, the capacity of the
/// destination when it is preallocated.
struct PrintBuf {
    buf: Vec<u8>,
    limit: usize,
    format: bool,
}

impl PrintBuf {
    /// Append `bytes` when they fit with room for a terminating NUL.
    fn write(&mut self, bytes: &[u8]) -> (r: bool)
        requires
            old(self).buf@.len() <= old(self).limit,
        ensures
            final(self).limit == old(self).limit,
            final(self).format == old(self).format,
            final(self).buf@.len() <= final(self).limit,
            r == (bytes@.len() <= PRINT_MAX && old(self).buf@.len() + bytes@.len() + 1 <= old(self).limit),
            r ==> final(self).buf@ == old(self).buf@ + bytes@,
    {
        if bytes.len() > PRINT_MAX {
            return false;
        }
        if self.buf.len() >= self.limit {
            return false;
        }
        let room = self.limit - self.buf.len();
        if bytes.len() >= room {
            return false;
        }
        let ghost pre = self.buf@;
        let mut j: usize = 0;
        while j < bytes.len()
            invariant
                j <= bytes@.len(),
                self.buf@ == pre + bytes@.subrange(0, j as int),
                pre.len() + bytes@.len() < self.limit,
                self.limit == old(self).limit,
                self.format == old(self).format,
            decreases bytes.len() - j,
        {
            self.buf.push(bytes[j]);
            proof {
                assert(bytes@.subrange(0, j + 1) =~= bytes@.subrange(0, j as int).push(bytes@[j as int]));
            }
            j += 1;
        }
        assert(bytes@.subrange(0, bytes@.len() as int) =~= bytes@);
        true
    }
}

fn tab_run(n: usize) -> (r: Vec<u8>)
    ensures
        r@ == tabs(n as nat),
{
    let mut v: Vec<u8> = Vec::new();
    let mut i: usize = 0;
    while i < n
        invariant
            i <= n,
            v@ == tabs(i as nat),
        decreases n - i,
    {
        v.push(9u8);
        proof { assert(v@ =~= tabs((i + 1) as nat)); }
        i += 1;
    }
    v
}

/// The first elements of an array render within every longer run of them.
proof fn lemma_items_mono<G: Fn(u64, i32) -> Vec<u8>>(m: StoreView, ts: Seq<Tree>, k: nat, j: nat, fmt: bool, depth: nat, g: G)
    requires
        k <= j <= ts.len(),
        items_upto(m, ts, j, fmt, depth, g) is Some,
    ensures
        items_upto(m, ts, k, fmt, depth, g) is Some,
        items_upto(m, ts, k, fmt, depth, g).unwrap().len() <= items_upto(m, ts, j, fmt, depth, g).unwrap().len(),
    decreases j,
{
    if k < j {
        lemma_items_mono(m, ts, k, (j - 1) as nat, fmt, depth, g);
    }
}

proof fn lemma_members_mono<G: Fn(u64, i32) -> Vec<u8>>(m: StoreView, ts: Seq<Tree>, k: nat, j: nat, fmt: bool, depth: nat, g: G)
    requires
        k <= j <= ts.len(),
        members_upto(m, ts, j, fmt, depth, g) is Some,
    ensures
        members_upto(m, ts, k, fmt, depth, g) is Some,
        members_upto(m, ts, k, fmt, depth, g).unwrap().len() <= members_upto(m, ts, j, fmt, depth, g).unwrap().len(),
    decreases j,
{
    if k < j {
        lemma_members_mono(m, ts, k, (j - 1) as nat, fmt, depth, g);
    }
}

/// The trees below a tree keep the string handles readable.
proof fn lemma_strs_ok_kid(m: StoreView, t: Tree, i: int)
    requires
        strs_ok(m, t),
        0 <= i < t.kids.len(),
    ensures
        strs_ok(m, t.kids[i]),
{
    crate::tree::lemma_kids_in_ids(t.kids, i);
    assert(tree_ids(t) == seq![t.id] + crate::tree::forest_ids(t.kids));
    assert forall|id: NodeId| #[trigger] tree_ids(t.kids[i]).contains(id) implies tree_ids(t).contains(id) by {
        assert(crate::tree::forest_ids(t.kids).contains(id));
        let j = choose|j: int| 0 <= j < crate::tree::forest_ids(t.kids).len() && crate::tree::forest_ids(t.kids)[j] == id;
        assert(tree_ids(t)[j + 1] == id);
    }
}

} // verus!

verus! {

/// The requirements of the printers on the tree below `item`.
#[verifier::opaque]
pub open spec fn print_pre<G: Fn(u64, i32) -> Vec<u8>>(m: StoreView, t: Tree, item: NodeId, depth: usize, g: G) -> bool {
    &&& m.tree_valid(t, false)
    &&& t.id == item
    &&& strs_ok(m, t)
    &&& depth <= 1000
    &&& fmt_ok(g)
}

fn print_value<G: Fn(u64, i32) -> Vec<u8>>(
    store: &SafeStore,
    item: NodeId,
    out: &mut PrintBuf,
    depth: usize,
    g: &G,
    Ghost(t): Ghost<Tree>,
) -> (r: bool)
    requires
        print_pre(store@, t, item, depth, *g),
        old(out).buf@.len() <= old(out).limit,
    ensures
        final(out).limit == old(out).limit,
        final(out).format == old(out).format,
        final(out).buf@.len() <= final(out).limit,
        wrote(old(out).buf@, final(out).buf@, render(store@, t, old(out).format, depth as nat, *g), r, old(out).limit as int),
    decreases t, 1nat,
{
    proof { reveal(print_pre); }
    let ty = store.ty(item);
    let k = crate::types::type_kind(ty);
    proof {
        assert(tree_ids(t)[0] == item);
        assert(tree_ids(t).contains(item));
    }
    if k == NULL {
        out.write(&[110u8, 117u8, 108u8, 108u8])
    } else if k == FALSE {
        out.write(&[102u8, 97u8, 108u8, 115u8, 101u8])
    } else if k == TRUE {
        out.write(&[116u8, 114u8, 117u8, 101u8])
    } else if k == NUMBER {
        let s = call_fmt(g, store.valuedouble(item), store.valueint(item));
        out.write(s.as_slice())
    } else if k == RAW {
        match store.valuestring_bytes(item) {
            Some(b) => out.write(b),
            None => false,
        }
    } else if k == STRING {
        let e = crate::string::escape_string(store.valuestring_bytes(item));
        out.write(e.as_slice())
    } else if k == ARRAY {
        print_array(store, item, out, depth, g, Ghost(t))
    } else if k == OBJECT {
        print_object(store, item, out, depth, g, Ghost(t))
    } else {
        false
    }
}

#[verifier::spinoff_prover]
fn print_array<G: Fn(u64, i32) -> Vec<u8>>(
    store: &SafeStore,
    item: NodeId,
    out: &mut PrintBuf,
    depth: usize,
    g: &G,
    Ghost(t): Ghost<Tree>,
) -> (r: bool)
    requires
        print_pre(store@, t, item, depth, *g),
        spec_type_kind(store@.nodes[item].ty) == ARRAY,
        old(out).buf@.len() <= old(out).limit,
    ensures
        final(out).limit == old(out).limit,
        final(out).format == old(out).format,
        final(out).buf@.len() <= final(out).limit,
        wrote(old(out).buf@, final(out).buf@, render(store@, t, old(out).format, depth as nat, *g), r, old(out).limit as int),
    decreases t, 0nat,
{
    let ghost m = store@;
    let ghost fmt = out.format;
    let ghost start = out.buf@;
    let ghost ts = t.kids;
    let ghost n = ts.len();
    proof {
        lemma_render_unfold(m, t, fmt, depth as nat, *g);
        lemma_list_head(m, t, item, depth, *g);
    }
    if depth >= NESTING_LIMIT {
        return false;
    }
    if !out.write(&[91u8]) {
        return false;
    }
    let d1 = depth + 1;
    let mut cur = store.child(item);
    let ghost mut k: int = 0;
    let ghost mut acc: Seq<u8> = Seq::empty();
    proof {
        lemma_items_step(m, ts, 0, fmt, d1 as nat, *g);
    }
    loop
        invariant
            m == store@,
            print_pre(m, t, item, depth, *g),
            depth < 1000,
            d1 == depth + 1,
            ts == t.kids,
            n == ts.len(),
            spec_type_kind(m.nodes[item].ty) == ARRAY,
            t.id == item,
            0 <= k <= n,
            cur == (if k < n { Some(ts[k].id) } else { None::<NodeId> }),
            items_upto(m, ts, k as nat, fmt, d1 as nat, *g) == Some(acc),
            out.buf@ == start + seq![91u8] + acc,
            out.limit == old(out).limit,
            out.format == fmt,
            fmt == old(out).format,
            start == old(out).buf@,
            out.buf@.len() <= out.limit,
        ensures
            k == n,
        decreases n - k,
    {
        if cur.is_none() {
            break;
        }
        let el = cur.unwrap();
        let ghost kt = ts[k];
        proof { lemma_list_elem(m, t, item, depth, *g, k as int); }
        let ok = print_value(store, el, out, d1, g, Ghost(kt));
        if !ok {
            proof { lemma_array_fail(m, t, fmt, depth as nat, *g, k as nat, acc); }
            return false;
        }
        let nx = store.next(el);
        let ghost y = render(m, kt, fmt, d1 as nat, *g).unwrap();
        if nx.is_some() {
            let w = if out.format { out.write(&[44u8, 32u8]) } else { out.write(&[44u8]) };
            if !w {
                proof { lemma_array_fail(m, t, fmt, depth as nat, *g, k as nat, acc); }
                return false;
            }
        }
        proof {
            lemma_items_step(m, ts, k as nat, fmt, d1 as nat, *g);
            acc = acc + y + (if k + 1 < n { item_sep(fmt) } else { Seq::<u8>::empty() });
            assert(out.buf@ =~= start + seq![91u8] + acc);
        }
        cur = nx;
        proof { k = k + 1; }
    }
    if !out.write(&[93u8]) {
        return false;
    }
    proof {
        assert(out.buf@ =~= start + (seq![91u8] + acc + seq![93u8]));
    }
    true
}

#[verifier::spinoff_prover]
#[verifier::rlimit(40)]
fn print_object<G: Fn(u64, i32) -> Vec<u8>>(
    store: &SafeStore,
    item: NodeId,
    out: &mut PrintBuf,
    depth: usize,
    g: &G,
    Ghost(t): Ghost<Tree>,
) -> (r: bool)
    requires
        print_pre(store@, t, item, depth, *g),
        spec_type_kind(store@.nodes[item].ty) == OBJECT,
        old(out).buf@.len() <= old(out).limit,
    ensures
        final(out).limit == old(out).limit,
        final(out).format == old(out).format,
        final(out).buf@.len() <= final(out).limit,
        wrote(old(out).buf@, final(out).buf@, render(store@, t, old(out).format, depth as nat, *g), r, old(out).limit as int),
    decreases t, 0nat,
{
    let ghost m = store@;
    let ghost fmt = out.format;
    let ghost start = out.buf@;
    let ghost ts = t.kids;
    let ghost n = ts.len();
    let ghost open = if fmt { seq![123u8, 10u8] } else { seq![123u8] };
    proof {
        lemma_render_unfold(m, t, fmt, depth as nat, *g);
        lemma_list_head(m, t, item, depth, *g);
    }
    if depth >= NESTING_LIMIT {
        return false;
    }
    let w0 = if out.format { out.write(&[123u8, 10u8]) } else { out.write(&[123u8]) };
    if !w0 {
        return false;
    }
    let d1 = depth + 1;
    let mut cur = store.child(item);
    let ghost mut k: int = 0;
    let ghost mut acc: Seq<u8> = Seq::empty();
    proof {
        lemma_members_step(m, ts, 0, fmt, d1 as nat, *g);
    }
    loop
        invariant
            m == store@,
            print_pre(m, t, item, depth, *g),
            depth < 1000,
            d1 == depth + 1,
            ts == t.kids,
            n == ts.len(),
            open == (if fmt { seq![123u8, 10u8] } else { seq![123u8] }),
            spec_type_kind(m.nodes[item].ty) == OBJECT,
            t.id == item,
            0 <= k <= n,
            cur == (if k < n { Some(ts[k].id) } else { None::<NodeId> }),
            members_upto(m, ts, k as nat, fmt, d1 as nat, *g) == Some(acc),
            out.buf@ == start + open + acc,
            out.limit == old(out).limit,
            out.format == fmt,
            fmt == old(out).format,
            start == old(out).buf@,
            out.buf@.len() <= out.limit,
        ensures
            k == n,
        decreases n - k,
    {
        if cur.is_none() {
            break;
        }
        let el = cur.unwrap();
        let ghost kt = ts[k];
        proof { lemma_list_elem(m, t, item, depth, *g, k as int); }
        let ghost b0 = out.buf@;
        if out.format {
            let tb = tab_run(d1);
            if !out.write(tb.as_slice()) {
                proof { lemma_object_fail(m, t, fmt, depth as nat, *g, k as nat, acc); }
                return false;
            }
        }
        let key = crate::string::escape_string(store.key_bytes(el));
        if !out.write(key.as_slice()) {
            proof { lemma_object_fail(m, t, fmt, depth as nat, *g, k as nat, acc); }
            return false;
        }
        let w1 = if out.format { out.write(&[58u8, 9u8]) } else { out.write(&[58u8]) };
        if !w1 {
            proof { lemma_object_fail(m, t, fmt, depth as nat, *g, k as nat, acc); }
            return false;
        }
        let ok = print_value(store, el, out, d1, g, Ghost(kt));
        if !ok {
            proof { lemma_object_fail(m, t, fmt, depth as nat, *g, k as nat, acc); }
            return false;
        }
        let ghost y = render(m, kt, fmt, d1 as nat, *g).unwrap();
        let nx = store.next(el);
        if nx.is_some() {
            if !out.write(&[44u8]) {
                proof { lemma_object_fail(m, t, fmt, depth as nat, *g, k as nat, acc); }
                return false;
            }
        }
        if out.format {
            if !out.write(&[10u8]) {
                proof { lemma_object_fail(m, t, fmt, depth as nat, *g, k as nat, acc); }
                return false;
            }
        }
        proof {
            lemma_members_step(m, ts, k as nat, fmt, d1 as nat, *g);
            let mt = member_text(m, kt, y, k + 1 == n, fmt, d1 as nat);
            assert(out.buf@ =~= b0 + mt);
            acc = acc + mt;
            assert(out.buf@ =~= start + open + acc);
        }
        cur = nx;
        proof { k = k + 1; }
    }
    if out.format {
        let tb = tab_run(depth);
        if !out.write(tb.as_slice()) {
            return false;
        }
    }
    if !out.write(&[125u8]) {
        return false;
    }
    proof {
        assert(out.buf@ =~= start + (open + acc + (if fmt { tabs(depth as nat) } else { Seq::<u8>::empty() }) + seq![125u8]));
    }
    true
}

} // verus!

verus! {

/// `render` on one node, by its kind.
proof fn lemma_render_unfold<G: Fn(u64, i32) -> Vec<u8>>(m: StoreView, t: Tree, fmt: bool, depth: nat, g: G)
    ensures
        render(m, t, fmt, depth, g) == ({
            let d = m.nodes[t.id];
            let k = spec_type_kind(d.ty);
            if k == NULL {
                Some(lit_null())
            } else if k == FALSE {
                Some(lit_false())
            } else if k == TRUE {
                Some(lit_true())
            } else if k == NUMBER {
                Some(fmt_of(g, d.valuedouble, d.valueint))
            } else if k == RAW {
                m.str_bytes(d.valuestring)
            } else if k == STRING {
                Some(spec_escape_string(m.str_bytes(d.valuestring)))
            } else if k == ARRAY {
                if depth >= 1000 {
                    None
                } else {
                    match items_upto(m, t.kids, t.kids.len(), fmt, depth + 1, g) {
                        Some(x) => Some(seq![91u8] + x + seq![93u8]),
                        None => None,
                    }
                }
            } else if k == OBJECT {
                if depth >= 1000 {
                    None
                } else {
                    match members_upto(m, t.kids, t.kids.len(), fmt, depth + 1, g) {
                        Some(x) => Some((if fmt { seq![123u8, 10u8] } else { seq![123u8] }) + x
                            + (if fmt { tabs(depth) } else { Seq::<u8>::empty() }) + seq![125u8]),
                        None => None,
                    }
                }
            } else {
                None
            }
        }),
{
}

/// One more element of an array.
proof fn lemma_items_step<G: Fn(u64, i32) -> Vec<u8>>(m: StoreView, ts: Seq<Tree>, k: nat, fmt: bool, depth: nat, g: G)
    ensures
        k < ts.len() ==> items_upto(m, ts, k + 1, fmt, depth, g) == (match items_upto(m, ts, k, fmt, depth, g) {
            None => None,
            Some(a) => match render(m, ts[k as int], fmt, depth, g) {
                None => None,
                Some(b) => Some(a + b + (if k + 1 < ts.len() { item_sep(fmt) } else { Seq::<u8>::empty() })),
            },
        }),
        items_upto(m, ts, 0, fmt, depth, g) == Some(Seq::<u8>::empty()),
{
}

/// One more member of an object.
proof fn lemma_members_step<G: Fn(u64, i32) -> Vec<u8>>(m: StoreView, ts: Seq<Tree>, k: nat, fmt: bool, depth: nat, g: G)
    ensures
        k < ts.len() ==> members_upto(m, ts, k + 1, fmt, depth, g) == (match members_upto(m, ts, k, fmt, depth, g) {
            None => None,
            Some(a) => match render(m, ts[k as int], fmt, depth, g) {
                None => None,
                Some(b) => Some(a + member_text(m, ts[k as int], b, k + 1 == ts.len(), fmt, depth)),
            },
        }),
        members_upto(m, ts, 0, fmt, depth, g) == Some(Seq::<u8>::empty()),
{
}

/// A printed array is at least as long as its bracket, its first `k + 1` elements and
/// the separators among them.
proof fn lemma_array_len<G: Fn(u64, i32) -> Vec<u8>>(m: StoreView, ts: Seq<Tree>, k: nat, fmt: bool, depth: nat, g: G, acc: Seq<u8>)
    requires
        k < ts.len(),
        items_upto(m, ts, k, fmt, depth, g) == Some(acc),
        items_upto(m, ts, ts.len(), fmt, depth, g) is Some,
    ensures
        render(m, ts[k as int], fmt, depth, g) is Some,
        items_upto(m, ts, ts.len(), fmt, depth, g).unwrap().len() >= acc.len()
            + render(m, ts[k as int], fmt, depth, g).unwrap().len()
            + (if k + 1 < ts.len() { item_sep(fmt).len() } else { 0 }),
{
    lemma_items_mono(m, ts, k + 1, ts.len(), fmt, depth, g);
    lemma_items_step(m, ts, k, fmt, depth, g);
}

/// A printed object is at least as long as its first `k` members and the next one.
proof fn lemma_object_len<G: Fn(u64, i32) -> Vec<u8>>(m: StoreView, ts: Seq<Tree>, k: nat, fmt: bool, depth: nat, g: G, acc: Seq<u8>)
    requires
        k < ts.len(),
        members_upto(m, ts, k, fmt, depth, g) == Some(acc),
        members_upto(m, ts, ts.len(), fmt, depth, g) is Some,
    ensures
        render(m, ts[k as int], fmt, depth, g) is Some,
        members_upto(m, ts, ts.len(), fmt, depth, g).unwrap().len() >= acc.len()
            + member_text(m, ts[k as int], render(m, ts[k as int], fmt, depth, g).unwrap(), k + 1 == ts.len(), fmt, depth).len(),
{
    lemma_members_mono(m, ts, k + 1, ts.len(), fmt, depth, g);
    lemma_members_step(m, ts, k, fmt, depth, g);
}

} // verus!

verus! {

/// An element of a list below `t`: what printing it needs, and its `next` link.
proof fn lemma_list_elem<G: Fn(u64, i32) -> Vec<u8>>(m: StoreView, t: Tree, item: NodeId, depth: usize, g: G, k: int)
    requires
        print_pre(m, t, item, depth, g),
        depth < 1000,
        0 <= k < t.kids.len(),
    ensures
        print_pre(m, t.kids[k], t.kids[k].id, (depth + 1) as usize, g),
        m.nodes[t.kids[k].id].next == (if k + 1 < t.kids.len() { Some(t.kids[k + 1].id) } else { None::<NodeId> }),
        m.live(t.kids[k].id),
        m.str_ok(m.nodes[t.kids[k].id].key),
{
    reveal(print_pre);
    let ts = t.kids;
    assert(tops(ts)[k] == ts[k as int].id);
    if k + 1 < ts.len() {
        assert(tops(ts)[k + 1] == ts[k + 1].id);
    }
    lemma_strs_ok_kid(m, t, k);
    assert(tree_ids(ts[k as int])[0] == ts[k as int].id);
    assert(tree_ids(ts[k as int]).contains(ts[k as int].id));
}

/// The head of the list below `item`.
proof fn lemma_list_head<G: Fn(u64, i32) -> Vec<u8>>(m: StoreView, t: Tree, item: NodeId, depth: usize, g: G)
    requires
        print_pre(m, t, item, depth, g),
    ensures
        m.nodes[item].child == (if t.kids.len() > 0 { Some(t.kids[0].id) } else { None::<NodeId> }),
        t.id == item,
        fmt_ok(g),
        m.live(item),
{
    reveal(print_pre);
    if t.kids.len() > 0 {
        assert(tops(t.kids)[0] == t.kids[0].id);
    }
}

/// A failure inside the `k`-th element of an array leaves the print failed: there is no
/// text, or it is at least as long as what was being written.
proof fn lemma_array_fail<G: Fn(u64, i32) -> Vec<u8>>(m: StoreView, t: Tree, fmt: bool, depth: nat, g: G, k: nat, acc: Seq<u8>)
    requires
        spec_type_kind(m.nodes[t.id].ty) == ARRAY,
        depth < 1000,
        k < t.kids.len(),
        items_upto(m, t.kids, k, fmt, depth + 1, g) == Some(acc),
    ensures
        render(m, t, fmt, depth, g) is Some ==> render(m, t.kids[k as int], fmt, depth + 1, g) is Some
            && render(m, t, fmt, depth, g).unwrap().len() >= 1 + acc.len()
                + render(m, t.kids[k as int], fmt, depth + 1, g).unwrap().len()
                + (if k + 1 < t.kids.len() { item_sep(fmt).len() } else { 0 }) + 1,
{
    lemma_render_unfold(m, t, fmt, depth, g);
    if render(m, t, fmt, depth, g) is Some {
        lemma_array_len(m, t.kids, k, fmt, depth + 1, g, acc);
    }
}

/// A failure inside the `k`-th member of an object leaves the print failed.
proof fn lemma_object_fail<G: Fn(u64, i32) -> Vec<u8>>(m: StoreView, t: Tree, fmt: bool, depth: nat, g: G, k: nat, acc: Seq<u8>)
    requires
        spec_type_kind(m.nodes[t.id].ty) == OBJECT,
        depth < 1000,
        k < t.kids.len(),
        members_upto(m, t.kids, k, fmt, depth + 1, g) == Some(acc),
    ensures
        render(m, t, fmt, depth, g) is Some ==> render(m, t.kids[k as int], fmt, depth + 1, g) is Some
            && render(m, t, fmt, depth, g).unwrap().len() >= (if fmt { 2int } else { 1int }) + acc.len()
                + member_text(m, t.kids[k as int], render(m, t.kids[k as int], fmt, depth + 1, g).unwrap(),
                    k + 1 == t.kids.len(), fmt, depth + 1).len() + 1,
{
    lemma_render_unfold(m, t, fmt, depth, g);
    if render(m, t, fmt, depth, g) is Some {
        lemma_object_len(m, t.kids, k, fmt, depth + 1, g, acc);
    }
}

} // verus!

verus! {

/// The text of the tree below `item`, printed from the top.
pub open spec fn printed<G: Fn(u64, i32) -> Vec<u8>>(m: StoreView, item: NodeId, format: bool, g: G) -> Option<Seq<u8>> {
    render(m, m.tree_of(item, false), format, 0, g)
}

/// What the printers need of the store: the tree below `item` is finite and its string
/// handles are readable.
pub open spec fn printable(m: StoreView, item: NodeId) -> bool {
    m.has_tree(item, false) && strs_ok(m, m.tree_of(item, false))
}

/// Print the tree below `item` into a growing buffer; `None` where printing fails, or when the
/// text with its terminating NUL would exceed `PRINT_MAX` bytes.
pub fn print<G: Fn(u64, i32) -> Vec<u8>>(store: &SafeStore, item: NodeId, opts: PrintOpts, fmt: &G) -> (r: Option<Vec<u8>>)
    requires
        printable(store@, item),
        fmt_ok(*fmt),
    ensures
        match printed(store@, item, opts.format, *fmt) {
            Some(x) => if x.len() < PRINT_MAX { r is Some && r.unwrap()@ == x } else { r is None },
            None => r is None,
        },
{
    let ghost t = store@.tree_of(item, false);
    let mut out = PrintBuf { buf: Vec::new(), limit: PRINT_MAX, format: opts.format };
    proof {
        reveal(print_pre);
        assert(out.buf@ =~= Seq::<u8>::empty());
    }
    if !print_value(store, item, &mut out, 0, fmt, Ghost(t)) {
        return None;
    }
    proof { assert(out.buf@ =~= printed(store@, item, opts.format, *fmt).unwrap()); }
    Some(out.buf)
}

/// Print the tree below `item` into `dest`, followed by a NUL; `false` where printing fails or
/// the text and its NUL do not fit. On failure `dest` is left as it was.
pub fn print_preallocated<G: Fn(u64, i32) -> Vec<u8>>(
    store: &SafeStore,
    item: NodeId,
    dest: &mut [u8],
    format: bool,
    fmt: &G,
) -> (r: bool)
    requires
        printable(store@, item),
        fmt_ok(*fmt),
    ensures
        final(dest)@.len() == old(dest)@.len(),
        r ==> ({
            let x = printed(store@, item, format, *fmt).unwrap();
            &&& printed(store@, item, format, *fmt) is Some
            &&& x.len() + 1 <= old(dest)@.len()
            &&& final(dest)@ == x + seq![0u8] + old(dest)@.subrange(x.len() + 1int, old(dest)@.len() as int)
        }),
        !r ==> final(dest)@ == old(dest)@ && (printed(store@, item, format, *fmt) is None
            || printed(store@, item, format, *fmt).unwrap().len() + 1 > old(dest)@.len()
            || printed(store@, item, format, *fmt).unwrap().len() > PRINT_MAX),
{
    let ghost t = store@.tree_of(item, false);
    let mut out = PrintBuf { buf: Vec::new(), limit: dest.len(), format };
    proof {
        reveal(print_pre);
        assert(out.buf@ =~= Seq::<u8>::empty());
    }
    if !print_value(store, item, &mut out, 0, fmt, Ghost(t)) {
        return false;
    }
    let n = out.buf.len();
    let ghost x = out.buf@;
    let mut i: usize = 0;
    while i < n
        invariant
            i <= n,
            n == x.len(),
            x == out.buf@,
            n + 1 <= dest@.len(),
            dest@.len() == old(dest)@.len(),
            forall|j: int| 0 <= j < i ==> dest@[j] == x[j],
            forall|j: int| i <= j < dest@.len() ==> dest@[j] == old(dest)@[j],
        decreases n - i,
    {
        dest[i] = out.buf[i];
        i += 1;
    }
    dest[n] = 0;
    proof {
        assert(dest@ =~= x + seq![0u8] + old(dest)@.subrange(x.len() + 1int, old(dest)@.len() as int));
    }
    true
}

} // verus!

verus! {

/// The trees below a tree keep the string handles readable.
pub proof fn lemma_strs_ok_kid_pub(m: StoreView, t: Tree, i: int)
    requires
        strs_ok(m, t),
        0 <= i < t.kids.len(),
    ensures
        strs_ok(m, t.kids[i]),
{
    lemma_strs_ok_kid(m, t, i);
}

} // verus!
