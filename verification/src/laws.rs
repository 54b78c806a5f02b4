//! Properties that relate several DOM operations.
use vstd::prelude::*;
use crate::store::{NodeId, StrId, NodeData, StoreView};
use crate::types::{ci_diff_from, spec_tolower};
use crate::dom::{
    listed, append_ok, appended, lemma_append_list, inserted_before, lemma_insert_list, unlinked, lemma_unlink_list,
    rekeyed, object_lookup, first_stop, key_stop, lemma_first_stop,
};

verus! {

/// Appending a node to the children of `array` makes it the last child, the others keeping
/// their order.
pub proof fn law_append_last(m: StoreView, array: NodeId, item: NodeId)
    requires
        listed(m, array),
        append_ok(m, array, item),
        array != item,
        !m.children(array).contains(item),
        m.nodes[item].next is None,
    ensures
        listed(appended(m, array, item), array),
        appended(m, array, item).children(array) == m.children(array).push(item),
{
    let s = m.children(array);
    let a = appended(m, array, item);
    crate::tree::lemma_chain_is(m, m.nodes[array].child, s);
    lemma_append_list(m, array, item, s);
    crate::tree::lemma_chain_is(a, a.nodes[array].child, s.push(item));
}

/// Inserting a node at index `i` and then detaching it gives back the children as they
/// were, and the node without links.
pub proof fn law_insert_then_detach(m: StoreView, array: NodeId, i: int, newitem: NodeId)
    requires
        listed(m, array),
        0 <= i < m.children(array).len(),
        m.live(newitem),
        newitem != array,
        !m.children(array).contains(newitem),
    ensures
        ({
            let m1 = inserted_before(m, array, m.children(array)[i], newitem);
            let m2 = unlinked(m1, array, newitem);
            &&& m1.children(array) == m.children(array).insert(i, newitem)
            &&& m2.children(array) == m.children(array)
            &&& listed(m2, array)
            &&& m2.nodes[newitem].next is None
            &&& m2.nodes[newitem].prev is None
        }),
{
    let s = m.children(array);
    crate::tree::lemma_chain_is(m, m.nodes[array].child, s);
    lemma_insert_list(m, array, s, i, newitem);
    let m1 = inserted_before(m, array, s[i], newitem);
    let s2 = s.insert(i, newitem);
    crate::tree::lemma_chain_is(m1, m1.nodes[array].child, s2);
    assert(s2[i] == newitem);
    lemma_unlink_list(m1, array, s2, i);
    assert(s2.remove(i) =~= s);
    let m2 = unlinked(m1, array, newitem);
    crate::tree::lemma_chain_is(m2, m2.nodes[array].child, s);
}

/// Detaching the child at index `i` leaves the other children in order.
pub proof fn law_detach_removes(m: StoreView, parent: NodeId, i: int)
    requires
        listed(m, parent),
        0 <= i < m.children(parent).len(),
    ensures
        ({
            let item = m.children(parent)[i];
            let m2 = unlinked(m, parent, item);
            &&& m2.children(parent) == m.children(parent).remove(i)
            &&& listed(m2, parent)
            &&& m2.nodes[item].next is None
            &&& m2.nodes[item].prev is None
        }),
{
    let s = m.children(parent);
    crate::tree::lemma_chain_is(m, m.nodes[parent].child, s);
    lemma_unlink_list(m, parent, s, i);
    let m2 = unlinked(m, parent, s[i]);
    crate::tree::lemma_chain_is(m2, m2.nodes[parent].child, s.remove(i));
}

proof fn lemma_ci_self(x: Seq<u8>, i: int)
    requires
        0 <= i <= x.len(),
    ensures
        ci_diff_from(x, x, i) == 0,
    decreases x.len() - i,
{
    if i < x.len() {
        lemma_ci_self(x, i + 1);
    }
}

/// Rekeying `item` leaves the members of `object` and their keys as they were.
#[verifier::spinoff_prover]
#[verifier::rlimit(40)]
proof fn lemma_rekey_members(m: StoreView, object: NodeId, item: NodeId, sid: StrId, key: Seq<u8>, constant_key: bool, slots: nat)
    requires
        listed(m, object),
        append_ok(m, object, item),
        object != item,
        !m.children(object).contains(item),
        m.nodes[item].next is None,
        !m.strings.contains_key(sid),
        m.nodes[item].key matches Some(k) ==> m.strings.contains_key(k),
        forall|j: int| 0 <= j < m.children(object).len() ==> (m.nodes[#[trigger] m.children(object)[j]].key matches Some(k)
            ==> m.strings.contains_key(k) && m.nodes[item].key != Some(k)),
    ensures
        ({
            let mr = StoreView { str_slots: slots, ..rekeyed(m, item, sid, key, constant_key) };
            &&& listed(mr, object)
            &&& append_ok(mr, object, item)
            &&& mr.children(object) == m.children(object)
            &&& mr.nodes[item].next is None
            &&& mr.key_of(item) == Some(key)
            &&& forall|j: int| 0 <= j < m.children(object).len() ==> mr.key_of(#[trigger] m.children(object)[j]) == m.key_of(m.children(object)[j])
        }),
{
    let s = m.children(object);
    let mr = StoreView { str_slots: slots, ..rekeyed(m, item, sid, key, constant_key) };
    crate::tree::lemma_chain_is(m, m.nodes[object].child, s);
    assert forall|j: int| 0 <= j < s.len() implies mr.nodes[#[trigger] s[j]] == m.nodes[s[j]] by {
        assert(s[j] != item);
    }
    assert(mr.is_list(mr.nodes[object].child, s));
    crate::tree::lemma_chain_is(mr, mr.nodes[object].child, s);
    assert forall|j: int| 0 <= j < s.len() implies mr.key_of(#[trigger] s[j]) == m.key_of(s[j]) by {
        assert(s[j] != item);
        assert(mr.nodes[s[j]] == m.nodes[s[j]]);
        if m.nodes[s[j]].key is Some {
            let k = m.nodes[s[j]].key.unwrap();
            assert(k != sid);
        }
    }
    if s.len() > 0 {
        assert(s[s.len() - 1] == s.last());
    }
    assert(mr.key_of(item) == Some(key));
    assert(append_ok(mr, object, item));
}

/// A member added to `object` under `key`, where no member stops the lookup of `key`, is
/// what a lookup of `key` finds afterwards (by either walk). The keys of the members and of
/// the added node must be live strings, the members' other than the added node's.
#[verifier::spinoff_prover]
#[verifier::rlimit(40)]
pub proof fn law_added_member_found(
    m: StoreView,
    object: NodeId,
    item: NodeId,
    sid: StrId,
    key: Seq<u8>,
    constant_key: bool,
    slots: nat,
    cs: bool,
)
    requires
        listed(m, object),
        append_ok(m, object, item),
        object != item,
        !m.children(object).contains(item),
        m.nodes[item].next is None,
        !m.strings.contains_key(sid),
        m.nodes[item].key matches Some(k) ==> m.strings.contains_key(k),
        forall|j: int| 0 <= j < m.children(object).len() ==> (m.nodes[#[trigger] m.children(object)[j]].key matches Some(k)
            ==> m.strings.contains_key(k) && m.nodes[item].key != Some(k)),
        first_stop(m, m.children(object), key, cs, 0) == m.children(object).len(),
    ensures
        ({
            let after = appended(StoreView { str_slots: slots, ..rekeyed(m, item, sid, key, constant_key) }, object, item);
            &&& after.children(object) == m.children(object).push(item)
            &&& object_lookup(after, after.children(object), key, cs) == Some(item)
        }),
{
    let s = m.children(object);
    let mr = StoreView { str_slots: slots, ..rekeyed(m, item, sid, key, constant_key) };
    let after = appended(mr, object, item);
    lemma_rekey_members(m, object, item, sid, key, constant_key, slots);
    law_append_last(mr, object, item);
    let s2 = s.push(item);
    // appending changes links only, so the keys stay
    assert(forall|x: NodeId| mr.live(x) ==> #[trigger] after.nodes[x].key == mr.nodes[x].key);
    assert(after.strings == mr.strings);
    // the walk passes every old member, then stops at `item`
    lemma_first_stop(m, s, key, cs, 0);
    assert forall|j: int| 0 <= j < s.len() implies !key_stop(after, #[trigger] s2[j], key, cs) by {
        assert(s2[j] == s[j]);
        assert(mr.live(s[j]));
        assert(after.key_of(s[j]) == mr.key_of(s[j]));
        assert(mr.key_of(s[j]) == m.key_of(s[j]));
        assert(!key_stop(m, s[j], key, cs));
    }
    assert(after.key_of(item) == Some(key));
    lemma_ci_self(key, 0);
    assert(key_stop(after, s2[s.len() as int], key, cs));
    lemma_first_stop(after, s2, key, cs, 0);
    let f = first_stop(after, s2, key, cs, 0);
    if f < s.len() {
        assert(!key_stop(after, s2[f], key, cs));
    }
    assert(f == s.len());
}

} // verus!
