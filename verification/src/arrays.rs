//! Arrays built from slices of numbers or strings.
use vstd::prelude::*;
use vstd::arithmetic::power2::{pow2, lemma_pow2_unfold, lemma_pow2_adds, lemma_pow2_strictly_increases, lemma2_to64};
use crate::store::{NodeId, StrId, SafeStore, NodeData, StoreView};
use crate::types::{NUMBER, STRING, ARRAY};
use crate::dom::{create_array, create_number, create_string, suffix_object, typed};

verus! {

/// The position of the highest set bit of `a` (for `a >= 1`).
pub open spec fn floor_log2(a: nat) -> nat
    decreases a,
{
    if a <= 1 { 0 } else { 1 + floor_log2(a / 2) }
}

proof fn lemma_floor_log2(a: nat)
    requires
        a >= 1,
    ensures
        pow2(floor_log2(a)) <= a < pow2(floor_log2(a) + 1),
    decreases a,
{
    if a <= 1 {
        lemma2_to64();
        vstd::arithmetic::power2::lemma2_to64_rest();
    } else {
        let b = a / 2;
        lemma_floor_log2(b);
        let e = floor_log2(b);
        lemma_pow2_unfold(e + 1);
        lemma_pow2_unfold(e + 2);
        assert(floor_log2(a) == e + 1);
    }
}

/// The IEEE-754 double bit pattern of the integer `n` (exact for `|n| < 2^53`): sign,
/// biased exponent and the fraction bits below the leading one.
pub open spec fn double_bits_of_int(n: int) -> int {
    if n == 0 {
        0
    } else {
        let a: nat = if n < 0 { (-n) as nat } else { n as nat };
        let e = floor_log2(a);
        (if n < 0 { pow2(63) as int } else { 0 }) + (1023 + e) * pow2(52) + (a * pow2((52 - e) as nat) - pow2(52))
    }
}

/// The bit pattern of `n` converted to `f64`.
pub fn int_to_double_bits(n: i32) -> (r: u64)
    ensures
        r == double_bits_of_int(n as int),
{
    let a: u64 = if n < 0 { (0i64 - (n as i64)) as u64 } else { n as u64 };
    if a == 0 {
        return 0;
    }
    let ghost an: nat = a as nat;
    proof {
        lemma_floor_log2(an);
        lemma2_to64();
        vstd::arithmetic::power2::lemma2_to64_rest();
        if floor_log2(an) > 31 {
            lemma_pow2_strictly_increases(31, floor_log2(an));
            assert(pow2(floor_log2(an)) > pow2(31));
        }
    }
    let mut m: u64 = a;
    let mut e: u64 = 0;
    while m > 1
        invariant
            1 <= m <= a,
            floor_log2(an) == e + floor_log2(m as nat),
            floor_log2(an) <= 31,
            an == a,
        decreases m,
    {
        m = m / 2;
        e = e + 1;
    }
    proof {
        assert(floor_log2(m as nat) == 0);
    }
    let mut q: u64 = 1;
    let mut k: u64 = e;
    proof { lemma2_to64();
        vstd::arithmetic::power2::lemma2_to64_rest(); }
    while k < 52
        invariant
            e <= k <= 52,
            q == pow2((k - e) as nat),
            e <= 31,
        decreases 52 - k,
    {
        proof {
            lemma_pow2_unfold((k + 1 - e) as nat);
            lemma_pow2_strictly_increases((k - e) as nat, 52);
            lemma2_to64();
        vstd::arithmetic::power2::lemma2_to64_rest();
            assert(pow2(52) == 4503599627370496);
            assert(pow2((k - e) as nat) < pow2(52));
            assert(q < 4503599627370496);
        }
        q = q * 2;
        k = k + 1;
    }
    let ghost p52: nat = pow2(52);
    proof {
        lemma_pow2_adds(e as nat, (52 - e) as nat);
        lemma_pow2_adds((e + 1) as nat, (52 - e) as nat);
        lemma2_to64();
        vstd::arithmetic::power2::lemma2_to64_rest();
        vstd::arithmetic::power2::lemma_pow2_pos((52 - e) as nat);
        let pe = pow2(e as nat);
        let pe1 = pow2((e + 1) as nat);
        assert(pe * q == pow2(52));
        assert(pe1 * q == pow2(53));
        assert(pe <= an < pe1);
        assert(pe * q <= an * q < pe1 * q) by (nonlinear_arith)
            requires
                pe <= an < pe1,
                q > 0;
    }
    let mant: u64 = a * q - 4503599627370496u64;
    let sign: u64 = if n < 0 { 9223372036854775808u64 } else { 0 };
    let r = sign + (1023 + e) * 4503599627370496u64 + mant;
    proof {
        assert(q == pow2((52 - e) as nat));
    }
    r
}

/// The links a node at index `j` of the list `s` has while the list is being built:
/// its neighbours, and no `prev` at the head yet.
pub open spec fn built_links(s: Seq<NodeId>, j: int, d: NodeData) -> NodeData {
    NodeData {
        next: if j + 1 < s.len() { Some(s[j + 1]) } else { None },
        prev: if j > 0 { Some(s[j - 1]) } else { None },
        ..d
    }
}

/// `m` is `m0` with the fresh array `a` and the fresh nodes `s` below it, node `s[j]`
/// holding the fields of `ds[j]` with the links of a list under construction.
pub open spec fn building(m0: StoreView, m: StoreView, a: NodeId, s: Seq<NodeId>, ds: Seq<NodeData>) -> bool {
    &&& s.len() == ds.len()
    &&& !m0.live(a)
    &&& m.live(a)
    &&& forall|j: int| 0 <= j < s.len() ==> !m0.live(#[trigger] s[j]) && m.live(s[j])
    &&& !s.contains(a)
    &&& s.no_duplicates()
    &&& forall|x: NodeId| #[trigger] m0.live(x) ==> m.live(x) && m.nodes[x] == m0.nodes[x]
    &&& forall|x: NodeId| #[trigger] m.live(x) ==> m0.live(x) || x == a || s.contains(x)
    &&& m.nodes[a] == (NodeData { child: if s.len() > 0 { Some(s[0]) } else { None }, ..typed(ARRAY) })
    &&& forall|j: int| 0 <= j < s.len() ==> m.nodes[#[trigger] s[j]] == built_links(s, j, ds[j])
    &&& m.fail_allocs == m0.fail_allocs
}

/// The finished array: as `building`, with the list closed (the head's `prev` is the last node).
pub open spec fn array_of(m0: StoreView, m: StoreView, a: NodeId, s: Seq<NodeId>, ds: Seq<NodeData>) -> bool {
    &&& s.len() == ds.len()
    &&& !m0.live(a)
    &&& forall|j: int| 0 <= j < s.len() ==> !m0.live(#[trigger] s[j])
    &&& !s.contains(a)
    &&& forall|x: NodeId| #[trigger] m0.live(x) ==> m.live(x) && m.nodes[x] == m0.nodes[x]
    &&& forall|x: NodeId| #[trigger] m.live(x) ==> m0.live(x) || x == a || s.contains(x)
    &&& m.nodes[a] == (NodeData { child: if s.len() > 0 { Some(s[0]) } else { None }, ..typed(ARRAY) })
    &&& m.is_list(m.nodes[a].child, s)
    &&& forall|j: int| 0 <= j < s.len() ==> m.nodes[#[trigger] s[j]] == (NodeData {
        next: m.nodes[s[j]].next,
        prev: m.nodes[s[j]].prev,
        ..ds[j]
    })
    &&& m.fail_allocs == m0.fail_allocs
}

/// A number node holding `valuedouble` (bits) and `valueint`.
pub open spec fn number_data(valuedouble: u64, valueint: i32) -> NodeData {
    NodeData { ty: NUMBER, valueint, valuedouble, ..NodeData::empty() }
}

/// Adding the fresh node `n` (holding `d`, no links) to the end of the list being built.
#[verifier::spinoff_prover]
#[verifier::rlimit(40)]
proof fn lemma_building_push(m0: StoreView, m: StoreView, a: NodeId, s: Seq<NodeId>, ds: Seq<NodeData>, n: NodeId, d: NodeData, m2: StoreView)
    requires
        building(m0, m, a, s, ds),
        !m.live(n),
        d.next is None,
        d.prev is None,
        m2.nodes == (if s.len() == 0 {
            m.with_node(n, d).with_node(a, NodeData { child: Some(n), ..m.nodes[a] })
        } else {
            let m1 = m.with_node(n, d);
            let m3 = m1.with_node(s.last(), NodeData { next: Some(n), ..m1.nodes[s.last()] });
            m3.with_node(n, NodeData { prev: Some(s.last()), ..m3.nodes[n] })
        }).nodes,
        m2.fail_allocs == m.fail_allocs,
    ensures
        building(m0, m2, a, s.push(n), ds.push(d)),
{
    let s2 = s.push(n);
    let ds2 = ds.push(d);
    assert(n != a);
    assert(!s.contains(n));
    assert(!m0.live(n));
    if s.len() > 0 {
        assert(s[s.len() - 1] == s.last());
        assert(m.live(s.last()));
    }
    assert forall|j: int| 0 <= j < s2.len() implies !m0.live(#[trigger] s2[j]) && m2.live(s2[j]) by {
        if j < s.len() { assert(s2[j] == s[j]); }
    }
    assert forall|x: NodeId| #[trigger] m0.live(x) implies m2.live(x) && m2.nodes[x] == m0.nodes[x] by {
        assert(x != n);
        assert(x != a);
        if s.len() > 0 {
            assert(x != s.last());
        }
    }
    assert forall|x: NodeId| #[trigger] m2.live(x) implies m0.live(x) || x == a || s2.contains(x) by {
        if x == n {
            assert(s2[s.len() as int] == n);
        } else {
            assert(m.live(x));
            if s.contains(x) {
                let j = choose|j: int| 0 <= j < s.len() && s[j] == x;
                assert(s2[j] == x);
            }
        }
    }
    assert forall|j: int| 0 <= j < s2.len() implies m2.nodes[#[trigger] s2[j]] == built_links(s2, j, ds2[j]) by {
        if j < s.len() {
            assert(s2[j] == s[j]);
            assert(ds2[j] == ds[j]);
            assert(m.nodes[s[j]] == built_links(s, j, ds[j]));
            if j + 1 < s.len() {
                assert(s2[j + 1] == s[j + 1]);
            }
            if j > 0 {
                assert(s2[j - 1] == s[j - 1]);
            }
            if j == s.len() - 1 {
                assert(s[j] == s.last());
            } else {
                assert(s[j] != s.last());
            }
        } else {
            assert(s2[j] == n);
            if j > 0 {
                assert(s2[j - 1] == s.last());
            }
        }
    }
    assert(s2.no_duplicates()) by {
        assert forall|x: int, y: int| 0 <= x < y < s2.len() implies s2[x] != s2[y] by {
            if y == s.len() {
                assert(s2[x] == s[x]);
            } else {
                assert(s2[x] == s[x]);
                assert(s2[y] == s[y]);
            }
        }
    }
    if s.len() > 0 {
        assert(s2[0] == s[0]);
        assert(s[0] != n);
    } else {
        assert(s2[0] == n);
    }
}

/// Closing the list keeps the nodes' fields but for the head's `prev`.
#[verifier::spinoff_prover]
#[verifier::rlimit(40)]
proof fn lemma_close_fields(m0: StoreView, m: StoreView, a: NodeId, s: Seq<NodeId>, ds: Seq<NodeData>, m2: StoreView)
    requires
        building(m0, m, a, s, ds),
        s.len() > 0,
        m2 == m.with_node(s[0], NodeData { prev: Some(s.last()), ..m.nodes[s[0]] }),
    ensures
        forall|x: NodeId| #[trigger] m0.live(x) ==> m2.live(x) && m2.nodes[x] == m0.nodes[x],
        forall|x: NodeId| #[trigger] m2.live(x) ==> m0.live(x) || x == a || s.contains(x),
        m2.nodes[a] == m.nodes[a],
        forall|j: int| 0 <= j < s.len() ==> m2.live(#[trigger] s[j]),
        forall|j: int| 0 < j < s.len() ==> m2.nodes[#[trigger] s[j]] == m.nodes[s[j]],
        m2.nodes[s[0]] == (NodeData { prev: Some(s.last()), ..m.nodes[s[0]] }),
{
    assert(!m0.live(s[0]));
    assert forall|x: NodeId| #[trigger] m0.live(x) implies m2.live(x) && m2.nodes[x] == m0.nodes[x] by {
        assert(x != s[0]);
    }
    assert forall|x: NodeId| #[trigger] m2.live(x) implies m0.live(x) || x == a || s.contains(x) by {
        assert(m.live(x));
    }
    assert forall|j: int| 0 < j < s.len() implies m2.nodes[#[trigger] s[j]] == m.nodes[s[j]] by {
        assert(s[j] != s[0]);
    }
}

/// Closing the list: the head's `prev` becomes the last node.
#[verifier::spinoff_prover]
#[verifier::rlimit(60)]
proof fn lemma_building_close(m0: StoreView, m: StoreView, a: NodeId, s: Seq<NodeId>, ds: Seq<NodeData>, m2: StoreView)
    requires
        building(m0, m, a, s, ds),
        forall|j: int| 0 <= j < ds.len() ==> (#[trigger] ds[j]).next is None && ds[j].prev is None,
        m2 == (if s.len() > 0 {
            m.with_node(s[0], NodeData { prev: Some(s.last()), ..m.nodes[s[0]] })
        } else {
            m
        }),
    ensures
        array_of(m0, m2, a, s, ds),
{
    if s.len() == 0 {
        assert(array_of(m0, m2, a, s, ds));
    } else {
        lemma_close_fields(m0, m, a, s, ds, m2);
        let n = s.len();
        assert(s[n - 1] == s.last());
        assert forall|j: int| 0 <= j < s.len() implies m2.nodes[#[trigger] s[j]] == (NodeData {
            next: m2.nodes[s[j]].next,
            prev: m2.nodes[s[j]].prev,
            ..ds[j]
        }) by {
            assert(m.nodes[s[j]] == built_links(s, j, ds[j]));
        }
        assert forall|j: int| 0 <= j < s.len() - 1 implies m2.nodes[#[trigger] s[j]].next == Some(s[j + 1]) by {
            assert(m.nodes[s[j]] == built_links(s, j, ds[j]));
        }
        assert forall|j: int| 0 < j < s.len() implies m2.nodes[#[trigger] s[j]].prev == Some(s[j - 1]) by {
            assert(m.nodes[s[j]] == built_links(s, j, ds[j]));
        }
        assert(m.nodes[s[n - 1]] == built_links(s, n - 1, ds[n - 1]));
        assert(m2.nodes[s.last()].next is None);
        assert(m2.is_chain(m2.nodes[a].child, s));
        assert(m2.is_list(m2.nodes[a].child, s));
    }
}

/// The outcome of building an array of nodes holding `ds`: `None` (nothing changed) exactly
/// when allocation fails.
pub open spec fn array_built(before: StoreView, after: StoreView, r: Option<NodeId>, ds: Seq<NodeData>) -> bool {
    match r {
        None => before.fail_allocs && after == before,
        Some(a) => !before.fail_allocs && exists|s: Seq<NodeId>| #[trigger] array_of(before, after, a, s, ds)
            && after.strings == before.strings && after.str_slots == before.str_slots,
    }
}

/// The number nodes `create_int_array` makes of `numbers`.
pub open spec fn int_nodes(numbers: Seq<i32>) -> Seq<NodeData> {
    Seq::new(numbers.len(), |j: int| number_data(double_bits_of_int(numbers[j] as int) as u64, numbers[j]))
}

/// Link the fresh node `n` after `prev`, or as the first child of `a`.
fn link_next(store: &mut SafeStore, a: NodeId, first: bool, prev: Option<NodeId>, n: NodeId)
    requires
        old(store)@.live(a),
        old(store)@.live(n),
        !first ==> (prev matches Some(p) && old(store)@.live(p)),
    ensures
        final(store)@ == (if first {
            old(store)@.with_node(a, NodeData { child: Some(n), ..old(store)@.nodes[a] })
        } else {
            let m3 = old(store)@.with_node(prev.unwrap(), NodeData { next: Some(n), ..old(store)@.nodes[prev.unwrap()] });
            m3.with_node(n, NodeData { prev: Some(prev.unwrap()), ..m3.nodes[n] })
        }),
{
    if first {
        store.set_child(a, Some(n));
    } else {
        match prev {
            Some(p) => suffix_object(store, p, n),
            None => {},
        }
    }
}

/// Close the list below `a`: its first child's `prev` becomes `last`.
fn close_list(store: &mut SafeStore, a: NodeId, last: Option<NodeId>)
    requires
        old(store)@.live(a),
        old(store)@.nodes[a].child matches Some(c) ==> old(store)@.live(c),
        (old(store)@.nodes[a].child is Some) == (last is Some),
    ensures
        final(store)@ == (match old(store)@.nodes[a].child {
            Some(c) => old(store)@.with_node(c, NodeData { prev: last, ..old(store)@.nodes[c] }),
            None => old(store)@,
        }),
{
    match (store.child(a), last) {
        (Some(c), Some(_)) => store.set_prev(c, last),
        _ => {},
    }
}

/// An array of number nodes holding `numbers`.
#[verifier::spinoff_prover]
#[verifier::rlimit(40)]
pub fn create_int_array(store: &mut SafeStore, numbers: &[i32]) -> (r: Option<NodeId>)
    ensures
        array_built(old(store)@, final(store)@, r, int_nodes(numbers@)),
{
    let ghost m0 = store@;
    let a = match create_array(store) {
        Some(a) => a,
        None => return None,
    };
    let ghost mut s: Seq<NodeId> = Seq::empty();
    let ghost mut ds: Seq<NodeData> = Seq::empty();
    let mut prev: Option<NodeId> = None;
    let mut i: usize = 0;
    proof {
        assert(building(m0, store@, a, s, ds));
    }
    while i < numbers.len()
        invariant
            i <= numbers@.len(),
            building(m0, store@, a, s, ds),
            !m0.fail_allocs,
            s.len() == i,
            ds =~= int_nodes(numbers@).take(i as int),
            prev == (if i > 0 { Some(s.last()) } else { None::<NodeId> }),
            store@.strings == m0.strings,
            store@.str_slots == m0.str_slots,
        decreases numbers@.len() - i,
    {
        let num = numbers[i];
        let bits = int_to_double_bits(num);
        let ghost m = store@;
        let n = match create_number(store, bits, num) {
            Some(n) => n,
            None => {
                store.delete(Some(a));
                return None;
            },
        };
        proof {
            if i > 0 {
                assert(s[s.len() - 1] == s.last());
                assert(m.live(s.last()));
            }
        }
        link_next(store, a, i == 0, prev, n);
        proof {
            let d = number_data(bits, num);
            lemma_building_push(m0, m, a, s, ds, n, d, store@);
            s = s.push(n);
            ds = ds.push(d);
            assert(int_nodes(numbers@)[i as int] == d);
            assert(ds =~= int_nodes(numbers@).take(i + 1));
        }
        prev = Some(n);
        i = i + 1;
    }
    let ghost mb = store@;
    proof {
        if s.len() > 0 {
            assert(mb.live(s[0]));
        }
        assert(ds =~= int_nodes(numbers@));
    }
    close_list(store, a, prev);
    proof {
        lemma_building_close(m0, mb, a, s, ds, store@);
        assert(array_of(m0, store@, a, s, ds));
    }
    Some(a)
}

/// The number nodes `create_double_array` makes of `numbers` (each the bits of a double and
/// its saturated integer value).
pub open spec fn double_nodes(numbers: Seq<(u64, i32)>) -> Seq<NodeData> {
    Seq::new(numbers.len(), |j: int| number_data(numbers[j].0, numbers[j].1))
}

/// An array of number nodes holding `numbers`, each given
/// as the bits of the double and its saturated integer value.
#[verifier::spinoff_prover]
#[verifier::rlimit(40)]
pub fn create_double_array(store: &mut SafeStore, numbers: &[(u64, i32)]) -> (r: Option<NodeId>)
    ensures
        array_built(old(store)@, final(store)@, r, double_nodes(numbers@)),
{
    let ghost m0 = store@;
    let a = match create_array(store) {
        Some(a) => a,
        None => return None,
    };
    let ghost mut s: Seq<NodeId> = Seq::empty();
    let ghost mut ds: Seq<NodeData> = Seq::empty();
    let mut prev: Option<NodeId> = None;
    let mut i: usize = 0;
    proof {
        assert(building(m0, store@, a, s, ds));
    }
    while i < numbers.len()
        invariant
            i <= numbers@.len(),
            building(m0, store@, a, s, ds),
            !m0.fail_allocs,
            s.len() == i,
            ds =~= double_nodes(numbers@).take(i as int),
            prev == (if i > 0 { Some(s.last()) } else { None::<NodeId> }),
            store@.strings == m0.strings,
            store@.str_slots == m0.str_slots,
        decreases numbers@.len() - i,
    {
        let (bits, num) = numbers[i];
        let ghost m = store@;
        let n = match create_number(store, bits, num) {
            Some(n) => n,
            None => {
                store.delete(Some(a));
                return None;
            },
        };
        proof {
            if i > 0 {
                assert(s[s.len() - 1] == s.last());
                assert(m.live(s.last()));
            }
        }
        link_next(store, a, i == 0, prev, n);
        proof {
            let d = number_data(bits, num);
            lemma_building_push(m0, m, a, s, ds, n, d, store@);
            s = s.push(n);
            ds = ds.push(d);
            assert(double_nodes(numbers@)[i as int] == d);
            assert(ds =~= double_nodes(numbers@).take(i + 1));
        }
        prev = Some(n);
        i = i + 1;
    }
    let ghost mb = store@;
    proof {
        if s.len() > 0 {
            assert(mb.live(s[0]));
        }
        assert(ds =~= double_nodes(numbers@));
    }
    close_list(store, a, prev);
    proof {
        lemma_building_close(m0, mb, a, s, ds, store@);
        assert(array_of(m0, store@, a, s, ds));
    }
    Some(a)
}

/// The strings of `after` are those of `before` and, under fresh handles, the values of
/// the string nodes `ds`, which hold `strs` in order.
pub open spec fn strings_added(before: StoreView, after: StoreView, ds: Seq<NodeData>, strs: Seq<Seq<u8>>) -> bool {
    &&& ds.len() == strs.len()
    &&& forall|j: int| 0 <= j < ds.len() ==> (#[trigger] ds[j]) == (NodeData {
        ty: STRING,
        valuestring: ds[j].valuestring,
        ..NodeData::empty()
    }) && ds[j].valuestring is Some
    &&& forall|j: int| 0 <= j < ds.len() ==> !before.strings.contains_key((#[trigger] ds[j]).valuestring.unwrap())
        && after.strings.contains_key(ds[j].valuestring.unwrap())
        && after.strings[ds[j].valuestring.unwrap()] == strs[j]
        && ds[j].valuestring.unwrap().0 < after.str_slots
    &&& forall|i: int, j: int| 0 <= i < j < ds.len() ==> (#[trigger] ds[i]).valuestring != (#[trigger] ds[j]).valuestring
    &&& forall|k: StrId| #[trigger] before.strings.contains_key(k) ==> after.strings.contains_key(k) && after.strings[k] == before.strings[k]
    &&& forall|k: StrId| #[trigger] after.strings.contains_key(k) ==> before.strings.contains_key(k)
        || exists|j: int| 0 <= j < ds.len() && (#[trigger] ds[j]).valuestring == Some(k)
    &&& after.str_slots >= before.str_slots
}

/// The outcome of `create_string_array`: `None` (nothing changed) exactly when allocation
/// fails; else a fresh array of fresh string nodes holding copies of `strs`.
pub open spec fn string_array_built(before: StoreView, after: StoreView, r: Option<NodeId>, strs: Seq<Seq<u8>>) -> bool {
    match r {
        None => before.fail_allocs && after == before,
        Some(a) => !before.fail_allocs && exists|s: Seq<NodeId>, ds: Seq<NodeData>| #[trigger] array_of(before, after, a, s, ds)
            && strings_added(before, after, ds, strs),
    }
}

/// The bytes of each slice of `v`.
pub open spec fn views(v: Seq<&[u8]>) -> Seq<Seq<u8>> {
    Seq::new(v.len(), |j: int| v[j]@)
}

/// One more string node: its fresh string joins those already added.
#[verifier::spinoff_prover]
#[verifier::rlimit(40)]
proof fn lemma_strings_push(m0: StoreView, m: StoreView, m2: StoreView, ds: Seq<NodeData>, strs: Seq<Seq<u8>>, sid: StrId, b: Seq<u8>)
    requires
        strings_added(m0, m, ds, strs),
        !m.strings.contains_key(sid),
        m2.strings == m.strings.insert(sid, b),
        sid.0 < m2.str_slots,
        m2.str_slots >= m.str_slots,
    ensures
        strings_added(m0, m2, ds.push(NodeData { ty: STRING, valuestring: Some(sid), ..NodeData::empty() }), strs.push(b)),
{
    let d = NodeData { ty: STRING, valuestring: Some(sid), ..NodeData::empty() };
    let ds2 = ds.push(d);
    let strs2 = strs.push(b);
    assert forall|j: int| 0 <= j < ds2.len() implies (#[trigger] ds2[j]) == (NodeData {
        ty: STRING,
        valuestring: ds2[j].valuestring,
        ..NodeData::empty()
    }) && ds2[j].valuestring is Some by {
        if j < ds.len() { assert(ds2[j] == ds[j]); }
    }
    assert(!m0.strings.contains_key(sid));
    assert forall|j: int| 0 <= j < ds2.len() implies !m0.strings.contains_key((#[trigger] ds2[j]).valuestring.unwrap())
        && m2.strings.contains_key(ds2[j].valuestring.unwrap())
        && m2.strings[ds2[j].valuestring.unwrap()] == strs2[j]
        && ds2[j].valuestring.unwrap().0 < m2.str_slots by {
        if j < ds.len() {
            assert(ds2[j] == ds[j]);
            assert(strs2[j] == strs[j]);
            assert(m.strings.contains_key(ds[j].valuestring.unwrap()));
        }
    }
    assert forall|i: int, j: int| 0 <= i < j < ds2.len() implies (#[trigger] ds2[i]).valuestring != (#[trigger] ds2[j]).valuestring by {
        assert(ds2[i] == ds[i]);
        if j < ds.len() {
            assert(ds2[j] == ds[j]);
        } else {
            assert(m.strings.contains_key(ds[i].valuestring.unwrap()));
        }
    }
    assert forall|k: StrId| #[trigger] m2.strings.contains_key(k) implies m0.strings.contains_key(k)
        || exists|j: int| 0 <= j < ds2.len() && (#[trigger] ds2[j]).valuestring == Some(k) by {
        if k == sid {
            assert(ds2[ds.len() as int].valuestring == Some(k));
        } else {
            assert(m.strings.contains_key(k));
            if !m0.strings.contains_key(k) {
                let j = choose|j: int| 0 <= j < ds.len() && (#[trigger] ds[j]).valuestring == Some(k);
                assert(ds2[j] == ds[j]);
            }
        }
    }
}

/// One step of building a string array: the node made of `b` is linked at the end.
#[verifier::spinoff_prover]
#[verifier::rlimit(40)]
proof fn lemma_string_step(
    m0: StoreView,
    m: StoreView,
    mc: StoreView,
    m2: StoreView,
    a: NodeId,
    s: Seq<NodeId>,
    ds: Seq<NodeData>,
    strs: Seq<Seq<u8>>,
    n: NodeId,
    b: Seq<u8>,
) -> (d: NodeData)
    requires
        building(m0, m, a, s, ds),
        strings_added(m0, m, ds, strs),
        crate::dom::created_str(m, mc, Some(n), STRING, b),
        s.len() > 0 ==> m.live(s.last()),
        m2 == (if s.len() == 0 {
            mc.with_node(a, NodeData { child: Some(n), ..mc.nodes[a] })
        } else {
            let m3 = mc.with_node(s.last(), NodeData { next: Some(n), ..mc.nodes[s.last()] });
            m3.with_node(n, NodeData { prev: Some(s.last()), ..m3.nodes[n] })
        }),
    ensures
        building(m0, m2, a, s.push(n), ds.push(d)),
        strings_added(m0, m2, ds.push(d), strs.push(b)),
{
    let sid = choose|sid: StrId| {
        &&& !m.strings.contains_key(sid)
        &&& sid.0 < mc.str_slots
        &&& mc.nodes == m.nodes.insert(n, NodeData { ty: STRING, valuestring: Some(sid), ..NodeData::empty() })
        &&& mc.strings == m.strings.insert(sid, b)
        &&& mc.str_slots >= m.str_slots
        &&& mc.fail_allocs == m.fail_allocs
    };
    let d = NodeData { ty: STRING, valuestring: Some(sid), ..NodeData::empty() };
    let mw = m.with_node(n, d);
    assert(mw.nodes == mc.nodes);
    lemma_building_push(m0, m, a, s, ds, n, d, m2);
    lemma_strings_push(m0, m, m2, ds, strs, sid, b);
    d
}

/// An array of string nodes holding copies of `strings`.
#[verifier::spinoff_prover]
#[verifier::rlimit(60)]
pub fn create_string_array(store: &mut SafeStore, strings: &[&[u8]]) -> (r: Option<NodeId>)
    ensures
        string_array_built(old(store)@, final(store)@, r, views(strings@)),
{
    let ghost m0 = store@;
    let a = match create_array(store) {
        Some(a) => a,
        None => return None,
    };
    let ghost ma = store@;
    let ghost mut s: Seq<NodeId> = Seq::empty();
    let ghost mut ds: Seq<NodeData> = Seq::empty();
    let mut prev: Option<NodeId> = None;
    let mut i: usize = 0;
    proof {
        assert(building(m0, store@, a, s, ds));
        assert(strings_added(m0, store@, ds, views(strings@).take(0)));
    }
    while i < strings.len()
        invariant
            i <= strings@.len(),
            building(m0, store@, a, s, ds),
            !m0.fail_allocs,
            s.len() == i,
            prev == (if i > 0 { Some(s.last()) } else { None::<NodeId> }),
            strings_added(m0, store@, ds, views(strings@).take(i as int)),
        decreases strings@.len() - i,
    {
        let b = strings[i];
        let ghost m = store@;
        let n = match create_string(store, b) {
            Some(n) => n,
            None => {
                store.delete(Some(a));
                return None;
            },
        };
        let ghost mc = store@;
        proof {
            if i > 0 {
                assert(s[s.len() - 1] == s.last());
                assert(m.live(s.last()));
            }
        }
        link_next(store, a, i == 0, prev, n);
        proof {
            let d = lemma_string_step(m0, m, mc, store@, a, s, ds, views(strings@).take(i as int), n, b@);
            assert(views(strings@).take(i as int).push(b@) =~= views(strings@).take(i + 1));
            s = s.push(n);
            ds = ds.push(d);
        }
        prev = Some(n);
        i = i + 1;
    }
    let ghost mb = store@;
    proof {
        if s.len() > 0 {
            assert(mb.live(s[0]));
        }
        assert(views(strings@).take(i as int) =~= views(strings@));
    }
    close_list(store, a, prev);
    proof {
        assert forall|j: int| 0 <= j < ds.len() implies (#[trigger] ds[j]).next is None && ds[j].prev is None by {}
        lemma_building_close(m0, mb, a, s, ds, store@);
        assert(strings_added(m0, store@, ds, views(strings@)));
    }
    Some(a)
}

} // verus!
