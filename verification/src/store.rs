//! The node store: an arena of JSON nodes and of the byte strings they hold.
//!
//! A node is addressed by a [`NodeId`], a string by a [`StrId`]. The model of a store
//! ([`StoreView`]) maps every live node to its fields and every live string to its bytes.
use vstd::prelude::*;
use crate::types::{opt_bytes, is_reference, string_is_const};
use crate::tree::{Tree, forest_ids, tree_ids, tops, lemma_forest_ids_split, lemma_concat_to_set, lemma_tree_frame, lemma_forest_ids_append, lemma_forest_strs_append, lemma_forest_single};

verus! {

/// Handle of a DOM node. Zero is reserved for NULL: no live node has it.
#[derive(Clone, Copy, PartialEq, Eq, Hash, Debug, Structural)]
pub struct NodeId(pub usize);

/// Handle of a byte string allocated by the store. Zero is reserved: no live string has it.
#[derive(Clone, Copy, PartialEq, Eq, Hash, Debug, Structural)]
pub struct StrId(pub usize);

/// The node handle for a raw number: none for zero.
pub open spec fn node_from_raw(raw: usize) -> Option<NodeId> {
    if raw == 0 { None } else { Some(NodeId(raw)) }
}

/// The string handle for a raw number: none for zero.
pub open spec fn str_from_raw(raw: usize) -> Option<StrId> {
    if raw == 0 { None } else { Some(StrId(raw)) }
}

/// A raw number names a handle exactly when it is not zero, and the handle gives the
/// number back.
pub proof fn law_handle_round_trip(raw: usize)
    ensures
        node_from_raw(raw) is None <==> raw == 0,
        raw != 0 ==> node_from_raw(raw).unwrap().0 == raw,
        str_from_raw(raw) is None <==> raw == 0,
        raw != 0 ==> str_from_raw(raw).unwrap().0 == raw,
{
}

impl NodeId {
    pub fn from_raw(raw: usize) -> (r: Option<Self>)
        ensures
            r == node_from_raw(raw),
    {
        if raw == 0 {
            None
        } else {
            Some(NodeId(raw))
        }
    }

    /// The raw number of the handle; for a handle other than zero, `from_raw` of it gives
    /// the handle back.
    pub fn raw(self) -> (r: usize)
        ensures
            r == self.0,
            r != 0 ==> node_from_raw(r) == Some(self),
    {
        self.0
    }
}

impl StrId {
    pub fn from_raw(raw: usize) -> (r: Option<Self>)
        ensures
            r == str_from_raw(raw),
    {
        if raw == 0 {
            None
        } else {
            Some(StrId(raw))
        }
    }

    /// The raw number of the handle; for a handle other than zero, `from_raw` of it gives
    /// the handle back.
    pub fn raw(self) -> (r: usize)
        ensures
            r == self.0,
            r != 0 ==> str_from_raw(r) == Some(self),
    {
        self.0
    }
}

/// The fields of one node. The number value is held as
/// the IEEE-754 bit pattern of the double (`valuedouble`).
#[derive(Clone, Copy, Debug)]
pub struct NodeData {
    pub next: Option<NodeId>,
    pub prev: Option<NodeId>,
    pub child: Option<NodeId>,
    pub ty: i32,
    pub valuestring: Option<StrId>,
    pub valueint: i32,
    pub valuedouble: u64,
    pub key: Option<StrId>,
}

impl NodeData {
    /// A freshly allocated node: every field zero or absent.
    pub open spec fn empty() -> NodeData {
        NodeData {
            next: None,
            prev: None,
            child: None,
            ty: 0,
            valuestring: None,
            valueint: 0,
            valuedouble: 0,
            key: None,
        }
    }

    fn new_empty() -> (r: NodeData)
        ensures
            r == NodeData::empty(),
    {
        NodeData {
            next: None,
            prev: None,
            child: None,
            ty: 0,
            valuestring: None,
            valueint: 0,
            valuedouble: 0,
            key: None,
        }
    }
}

/// The model of a store: the live nodes with their fields, the live strings with their
/// bytes, the number of string slots (a string handle beyond them is out of range),
/// and whether allocation is made to fail.
pub struct StoreView {
    pub nodes: Map<NodeId, NodeData>,
    pub strings: Map<StrId, Seq<u8>>,
    pub str_slots: nat,
    pub fail_allocs: bool,
}

impl StoreView {
    pub open spec fn live(self, id: NodeId) -> bool {
        self.nodes.contains_key(id)
    }

    /// A string handle that reading does not reject: absent, or within the slots.
    pub open spec fn str_ok(self, s: Option<StrId>) -> bool {
        match s {
            Some(sid) => sid.0 < self.str_slots,
            None => true,
        }
    }

    /// The bytes behind a string handle; a freed string reads as absent.
    pub open spec fn str_bytes(self, s: Option<StrId>) -> Option<Seq<u8>> {
        match s {
            Some(sid) => if self.strings.contains_key(sid) {
                Some(self.strings[sid])
            } else {
                None
            },
            None => None,
        }
    }

    pub open spec fn key_of(self, id: NodeId) -> Option<Seq<u8>> {
        self.str_bytes(self.nodes[id].key)
    }

    pub open spec fn valuestring_of(self, id: NodeId) -> Option<Seq<u8>> {
        self.str_bytes(self.nodes[id].valuestring)
    }

    /// The same store with the fields of `id` replaced.
    pub open spec fn with_node(self, id: NodeId, d: NodeData) -> StoreView {
        StoreView { nodes: self.nodes.insert(id, d), ..self }
    }
}

/// `id` is the lowest node slot that is free: every slot from 1 below it is taken.
pub open spec fn lowest_free_node(m: StoreView, id: NodeId) -> bool {
    &&& id.0 >= 1
    &&& !m.live(id)
    &&& forall|j: usize| 1 <= j < id.0 ==> #[trigger] m.live(NodeId(j))
}

/// `sid` is the lowest string slot that is free: every slot from 1 below it is taken.
pub open spec fn lowest_free_str(m: StoreView, sid: StrId) -> bool {
    &&& sid.0 >= 1
    &&& !m.strings.contains_key(sid)
    &&& forall|j: usize| 1 <= j < sid.0 ==> #[trigger] m.strings.contains_key(StrId(j))
}

/// In-memory store: an arena of nodes and of strings. Freed slots are reused.
pub struct SafeStore {
    nodes: Vec<Option<NodeData>>,
    strings: Vec<Option<Vec<u8>>>,
    pub fail_allocs: bool,
}

impl View for SafeStore {
    type V = StoreView;

    closed spec fn view(&self) -> StoreView {
        StoreView {
            nodes: Map::new(
                |id: NodeId| 1 <= id.0 < self.nodes@.len() && self.nodes@[id.0 as int] is Some,
                |id: NodeId| self.nodes@[id.0 as int].unwrap(),
            ),
            strings: Map::new(
                |s: StrId| 1 <= s.0 < self.strings@.len() && self.strings@[s.0 as int] is Some,
                |s: StrId| self.strings@[s.0 as int].unwrap()@,
            ),
            str_slots: self.strings@.len(),
            fail_allocs: self.fail_allocs,
        }
    }
}

/// No live node and no live string of a store has the reserved handle zero, so every
/// handle the store gives out comes back from `from_raw` of its raw number.
pub proof fn law_live_handles_nonzero(s: SafeStore, id: NodeId, sid: StrId)
    ensures
        s@.live(id) ==> id.0 != 0 && node_from_raw(id.0) == Some(id),
        s@.strings.contains_key(sid) ==> sid.0 != 0 && str_from_raw(sid.0) == Some(sid),
{
}

impl SafeStore {
    /// An empty store.
    pub fn new() -> (s: SafeStore)
        ensures
            s@.nodes == Map::<NodeId, NodeData>::empty(),
            s@.strings == Map::<StrId, Seq<u8>>::empty(),
            !s@.fail_allocs,
    {
        let mut nodes: Vec<Option<NodeData>> = Vec::new();
        nodes.push(None);
        let mut strings: Vec<Option<Vec<u8>>> = Vec::new();
        strings.push(None);
        let s = SafeStore { nodes, strings, fail_allocs: false };
        assert(s@.nodes =~= Map::<NodeId, NodeData>::empty());
        assert(s@.strings =~= Map::<StrId, Seq<u8>>::empty());
        s
    }

    /// Whether `id` names a live node.
    pub fn is_live(&self, id: NodeId) -> (r: bool)
        ensures
            r == self@.live(id),
    {
        1 <= id.0 && id.0 < self.nodes.len() && self.nodes[id.0].is_some()
    }

    fn node(&self, id: NodeId) -> (r: NodeData)
        requires
            self@.live(id),
        ensures
            r == self@.nodes[id],
    {
        self.nodes[id.0].unwrap()
    }

    fn put_node(&mut self, id: NodeId, d: NodeData)
        requires
            old(self)@.live(id),
        ensures
            final(self)@ == old(self)@.with_node(id, d),
    {
        self.nodes.set(id.0, Some(d));
        assert(self@.nodes =~= old(self)@.nodes.insert(id, d));
        assert(self@.strings =~= old(self)@.strings);
    }

    /// Allocate a node with every field zero or absent; `None` when allocation is made to fail.
    pub fn alloc_node(&mut self) -> (r: Option<NodeId>)
        ensures
            old(self)@.fail_allocs <==> r is None,
            r is None ==> final(self)@ == old(self)@,
            r matches Some(id) ==> !old(self)@.live(id)
                && final(self)@ == (StoreView { nodes: old(self)@.nodes.insert(id, NodeData::empty()), ..old(self)@ }),
            r matches Some(id) ==> lowest_free_node(old(self)@, id),
    {
        if self.fail_allocs {
            return None;
        }
        if self.nodes.len() == 0 {
            self.nodes.push(None);
            assert(self@.nodes =~= old(self)@.nodes);
            assert(self@.strings =~= old(self)@.strings);
        }
        let ghost mid = self@;
        assert(mid == old(self)@);
        let mut i: usize = 1;
        while i < self.nodes.len()
            invariant
                1 <= i <= self.nodes@.len(),
                self@ == mid,
                mid == old(self)@,
                !mid.fail_allocs,
                forall|j: int| 1 <= j < i ==> self.nodes@[j] is Some,
            decreases self.nodes@.len() - i,
        {
            if self.nodes[i].is_none() {
                let d = NodeData::new_empty();
                self.nodes.set(i, Some(d));
                assert(self@.nodes =~= mid.nodes.insert(NodeId(i), d));
                assert(self@.strings =~= mid.strings);
                return Some(NodeId(i));
            }
            i = i + 1;
        }
        let d = NodeData::new_empty();
        self.nodes.push(Some(d));
        let n = self.nodes.len() - 1;
        assert(self@.nodes =~= mid.nodes.insert(NodeId(n), d));
        assert(self@.strings =~= mid.strings);
        Some(NodeId(n))
    }

    /// Free the node only (not children or strings).
    pub fn free_node_only(&mut self, id: NodeId)
        requires
            old(self).node_slot_ok(id),
        ensures
            final(self)@ == (StoreView { nodes: old(self)@.nodes.remove(id), ..old(self)@ }),
    {
        self.nodes.set(id.0, None);
        assert(self@.nodes =~= old(self)@.nodes.remove(id));
        assert(self@.strings =~= old(self)@.strings);
    }

    pub fn ty(&self, id: NodeId) -> (r: i32)
        requires
            self@.live(id),
        ensures
            r == self@.nodes[id].ty,
    {
        self.node(id).ty
    }

    pub fn set_ty(&mut self, id: NodeId, v: i32)
        requires
            old(self)@.live(id),
        ensures
            final(self)@ == old(self)@.with_node(id, NodeData { ty: v, ..old(self)@.nodes[id] }),
    {
        let d = self.node(id);
        self.put_node(id, NodeData { ty: v, ..d });
    }

    pub fn valueint(&self, id: NodeId) -> (r: i32)
        requires
            self@.live(id),
        ensures
            r == self@.nodes[id].valueint,
    {
        self.node(id).valueint
    }

    pub fn set_valueint(&mut self, id: NodeId, v: i32)
        requires
            old(self)@.live(id),
        ensures
            final(self)@ == old(self)@.with_node(id, NodeData { valueint: v, ..old(self)@.nodes[id] }),
    {
        let d = self.node(id);
        self.put_node(id, NodeData { valueint: v, ..d });
    }

    pub fn valuedouble(&self, id: NodeId) -> (r: u64)
        requires
            self@.live(id),
        ensures
            r == self@.nodes[id].valuedouble,
    {
        self.node(id).valuedouble
    }

    pub fn set_valuedouble(&mut self, id: NodeId, v: u64)
        requires
            old(self)@.live(id),
        ensures
            final(self)@ == old(self)@.with_node(id, NodeData { valuedouble: v, ..old(self)@.nodes[id] }),
    {
        let d = self.node(id);
        self.put_node(id, NodeData { valuedouble: v, ..d });
    }

    pub fn next(&self, id: NodeId) -> (r: Option<NodeId>)
        requires
            self@.live(id),
        ensures
            r == self@.nodes[id].next,
    {
        self.node(id).next
    }

    pub fn set_next(&mut self, id: NodeId, v: Option<NodeId>)
        requires
            old(self)@.live(id),
        ensures
            final(self)@ == old(self)@.with_node(id, NodeData { next: v, ..old(self)@.nodes[id] }),
    {
        let d = self.node(id);
        self.put_node(id, NodeData { next: v, ..d });
    }

    pub fn prev(&self, id: NodeId) -> (r: Option<NodeId>)
        requires
            self@.live(id),
        ensures
            r == self@.nodes[id].prev,
    {
        self.node(id).prev
    }

    pub fn set_prev(&mut self, id: NodeId, v: Option<NodeId>)
        requires
            old(self)@.live(id),
        ensures
            final(self)@ == old(self)@.with_node(id, NodeData { prev: v, ..old(self)@.nodes[id] }),
    {
        let d = self.node(id);
        self.put_node(id, NodeData { prev: v, ..d });
    }

    pub fn child(&self, id: NodeId) -> (r: Option<NodeId>)
        requires
            self@.live(id),
        ensures
            r == self@.nodes[id].child,
    {
        self.node(id).child
    }

    pub fn set_child(&mut self, id: NodeId, v: Option<NodeId>)
        requires
            old(self)@.live(id),
        ensures
            final(self)@ == old(self)@.with_node(id, NodeData { child: v, ..old(self)@.nodes[id] }),
    {
        let d = self.node(id);
        self.put_node(id, NodeData { child: v, ..d });
    }

    pub fn key_id(&self, id: NodeId) -> (r: Option<StrId>)
        requires
            self@.live(id),
        ensures
            r == self@.nodes[id].key,
    {
        self.node(id).key
    }

    pub fn set_key_id(&mut self, id: NodeId, v: Option<StrId>)
        requires
            old(self)@.live(id),
        ensures
            final(self)@ == old(self)@.with_node(id, NodeData { key: v, ..old(self)@.nodes[id] }),
    {
        let d = self.node(id);
        self.put_node(id, NodeData { key: v, ..d });
    }

    pub fn valuestring_id(&self, id: NodeId) -> (r: Option<StrId>)
        requires
            self@.live(id),
        ensures
            r == self@.nodes[id].valuestring,
    {
        self.node(id).valuestring
    }

    pub fn set_valuestring_id(&mut self, id: NodeId, v: Option<StrId>)
        requires
            old(self)@.live(id),
        ensures
            final(self)@ == old(self)@.with_node(id, NodeData { valuestring: v, ..old(self)@.nodes[id] }),
    {
        let d = self.node(id);
        self.put_node(id, NodeData { valuestring: v, ..d });
    }

    /// The bytes behind a string handle; `None` for an absent or freed string.
    pub fn str_bytes(&self, s: Option<StrId>) -> (r: Option<&[u8]>)
        requires
            self@.str_ok(s),
        ensures
            opt_bytes(r) == self@.str_bytes(s),
    {
        match s {
            None => None,
            Some(sid) => if sid.0 == 0 {
                None
            } else {
                match &self.strings[sid.0] {
                    Some(v) => Some(v.as_slice()),
                    None => None,
                }
            },
        }
    }

    pub fn key_bytes(&self, id: NodeId) -> (r: Option<&[u8]>)
        requires
            self@.live(id),
            self@.str_ok(self@.nodes[id].key),
        ensures
            opt_bytes(r) == self@.key_of(id),
    {
        self.str_bytes(self.node(id).key)
    }

    pub fn valuestring_bytes(&self, id: NodeId) -> (r: Option<&[u8]>)
        requires
            self@.live(id),
            self@.str_ok(self@.nodes[id].valuestring),
        ensures
            opt_bytes(r) == self@.valuestring_of(id),
    {
        self.str_bytes(self.node(id).valuestring)
    }

    /// Allocate a copy of `bytes`; `None` when allocation is made to fail.
    pub fn alloc_str(&mut self, bytes: &[u8]) -> (r: Option<StrId>)
        ensures
            old(self)@.fail_allocs <==> r is None,
            r is None ==> final(self)@ == old(self)@,
            r matches Some(sid) ==> !old(self)@.strings.contains_key(sid)
                && final(self)@.nodes == old(self)@.nodes
                && final(self)@.strings == old(self)@.strings.insert(sid, bytes@)
                && final(self)@.fail_allocs == old(self)@.fail_allocs
                && final(self)@.str_slots >= old(self)@.str_slots
                && sid.0 < final(self)@.str_slots,
            r matches Some(sid) ==> lowest_free_str(old(self)@, sid),
    {
        if self.fail_allocs {
            return None;
        }
        if self.strings.len() == 0 {
            self.strings.push(None);
            assert(self@.nodes =~= old(self)@.nodes);
            assert(self@.strings =~= old(self)@.strings);
        }
        let ghost mid = self@;
        let mut i: usize = 1;
        while i < self.strings.len()
            invariant
                1 <= i <= self.strings@.len(),
                self@ == mid,
                mid.nodes == old(self)@.nodes,
                mid.strings == old(self)@.strings,
                mid.str_slots >= old(self)@.str_slots,
                mid.fail_allocs == old(self)@.fail_allocs,
                !mid.fail_allocs,
                forall|j: int| 1 <= j < i ==> self.strings@[j] is Some,
            decreases self.strings@.len() - i,
        {
            if self.strings[i].is_none() {
                let v = vstd::slice::slice_to_vec(bytes);
                self.strings.set(i, Some(v));
                assert(self@.nodes =~= mid.nodes);
                assert(self@.strings =~= mid.strings.insert(StrId(i), bytes@));
                return Some(StrId(i));
            }
            i = i + 1;
        }
        let v = vstd::slice::slice_to_vec(bytes);
        self.strings.push(Some(v));
        let n = self.strings.len() - 1;
        assert(self@.nodes =~= mid.nodes);
        assert(self@.strings =~= mid.strings.insert(StrId(n), bytes@));
        Some(StrId(n))
    }

    /// Adopt an existing string without copying. This store cannot hold an outside
    /// string, so it copies; callers mark such strings constant or referenced.
    pub fn borrow_str(&mut self, bytes: &[u8]) -> (r: Option<StrId>)
        ensures
            old(self)@.fail_allocs <==> r is None,
            r is None ==> final(self)@ == old(self)@,
            r matches Some(sid) ==> !old(self)@.strings.contains_key(sid)
                && final(self)@.nodes == old(self)@.nodes
                && final(self)@.strings == old(self)@.strings.insert(sid, bytes@)
                && final(self)@.fail_allocs == old(self)@.fail_allocs
                && final(self)@.str_slots >= old(self)@.str_slots
                && sid.0 < final(self)@.str_slots,
    {
        self.alloc_str(bytes)
    }

    /// Free a string; a handle beyond the slots is ignored.
    pub fn free_str(&mut self, id: StrId)
        ensures
            final(self)@ == (StoreView { strings: old(self)@.strings.remove(id), ..old(self)@ }),
    {
        if id.0 < self.strings.len() {
            self.strings.set(id.0, None);
        }
        assert(self@.nodes =~= old(self)@.nodes);
        assert(self@.strings =~= old(self)@.strings.remove(id));
    }

    /// Copy every field from `src` onto `dest`.
    pub fn copy_fields(&mut self, dest: NodeId, src: NodeId)
        requires
            old(self)@.live(dest),
            old(self)@.live(src),
        ensures
            final(self)@ == old(self)@.with_node(dest, old(self)@.nodes[src]),
    {
        let d = self.node(src);
        self.put_node(dest, d);
    }

    /// Free the chain from `item` with everything below it (not below a
    /// reference), and the strings those nodes own.
    pub fn delete(&mut self, item: Option<NodeId>)
        requires
            old(self)@.has_forest(item, true),
        ensures
            final(self)@ == old(self)@.after_delete(old(self)@.forest(item, true)),
    {
        let ghost ts = self@.forest(item, true);
        self.delete_forest(item, Ghost(ts));
    }

    #[verifier::spinoff_prover]
    #[verifier::rlimit(40)]
    fn delete_forest(&mut self, item: Option<NodeId>, Ghost(ts): Ghost<Seq<Tree>>)
        requires
            old(self)@.forest_valid(item, ts, true),
            forest_ids(ts).no_duplicates(),
        ensures
            final(self)@ == old(self)@.after_delete(ts),
        decreases ts,
    {
        let ghost m0 = self@;
        let mut cur = item;
        let ghost mut k: int = 0;
        proof {
            assert(ts.take(0) =~= Seq::<Tree>::empty());
            assert(forest_ids(Seq::<Tree>::empty()) =~= Seq::<NodeId>::empty());
            assert(m0.forest_strs(Seq::<Tree>::empty()) =~= Set::<StrId>::empty());
            assert(self@.nodes =~= m0.nodes.remove_keys(Set::empty()));
            assert(self@.strings =~= m0.strings.remove_keys(Set::empty()));
            assert(forest_ids(ts.take(0)).to_set() =~= Set::<NodeId>::empty());
            assert(m0.forest_strs(ts.take(0)) =~= Set::<StrId>::empty());
            assert(self@ == m0.after_delete(ts.take(0)));
        }
        while cur.is_some()
            invariant
                0 <= k <= ts.len(),
                m0 == old(self)@,
                m0.forest_valid(item, ts, true),
                forest_ids(ts).no_duplicates(),
                cur == (if k < ts.len() { Some(ts[k].id) } else { None::<NodeId> }),
                self@ == m0.after_delete(ts.take(k)),
            decreases ts.len() - k,
        {
            let id = cur.unwrap();
            let ghost t = ts[k];
            let ghost before = self@;
            proof {
                lemma_forest_ids_split(ts, k);
                lemma_concat_to_set(forest_ids(ts.take(k)), tree_ids(t));
                lemma_concat_to_set(forest_ids(ts.take(k)) + tree_ids(t), forest_ids(ts.skip(k + 1)));
                assert(tree_ids(t)[0] == t.id);
                assert(forall|x: NodeId| tree_ids(t).to_set().contains(x) ==> !forest_ids(ts.take(k)).to_set().contains(x)) by {
                    assert forall|x: NodeId| tree_ids(t).to_set().contains(x) implies !forest_ids(ts.take(k)).to_set().contains(x) by {
                        let a = forest_ids(ts.take(k));
                        let j = choose|j: int| 0 <= j < tree_ids(t).len() && tree_ids(t)[j] == x;
                        if a.to_set().contains(x) {
                            let i = choose|i: int| 0 <= i < a.len() && a[i] == x;
                            assert(forest_ids(ts)[i] == x);
                            assert(forest_ids(ts)[a.len() + j] == x);
                        }
                    }
                }
                assert(m0.agrees_on(before, tree_ids(t).to_set()));
                assert(m0.tree_valid(t, true));
                lemma_tree_frame(m0, before, t, true);
                assert(tree_ids(t) == seq![t.id] + forest_ids(t.kids));
                assert(forest_ids(t.kids).no_duplicates()) by {
                    assert forall|i: int, j: int| 0 <= i < j < forest_ids(t.kids).len()
                        implies forest_ids(t.kids)[i] != forest_ids(t.kids)[j] by {
                        assert(forest_ids(ts)[forest_ids(ts.take(k)).len() + 1 + i] == forest_ids(t.kids)[i]);
                        assert(forest_ids(ts)[forest_ids(ts.take(k)).len() + 1 + j] == forest_ids(t.kids)[j]);
                    }
                }
                assert(!forest_ids(t.kids).contains(t.id)) by {
                    if forest_ids(t.kids).contains(t.id) {
                        let i = choose|i: int| 0 <= i < forest_ids(t.kids).len() && forest_ids(t.kids)[i] == t.id;
                        assert(forest_ids(ts)[forest_ids(ts.take(k)).len() + 1 + i] == t.id);
                        assert(forest_ids(ts)[forest_ids(ts.take(k)).len() as int] == t.id);
                    }
                }
                if k + 1 < ts.len() {
                    assert(tops(ts)[k] == ts[k].id);
                    assert(tops(ts)[k + 1] == ts[k + 1].id);
                }
                assert(tops(ts)[k] == ts[k].id);
            }
            let next = self.next(id);
            let ty = self.ty(id);
            if !is_reference(ty) {
                let child = self.child(id);
                self.delete_forest(child, Ghost(t.kids));
                proof {
                    assert(!self@.nodes.remove_keys(Set::empty()).dom().contains(t.id) ==> false) by {
                        assert(!forest_ids(t.kids).to_set().contains(t.id));
                    }
                }
                let vs = self.valuestring_id(id);
                match vs {
                    Some(sv) => {
                        self.set_valuestring_id(id, None);
                        self.free_str(sv);
                    },
                    None => {},
                }
            } else {
                assert(t.kids.len() == 0);
                assert(forest_ids(t.kids) =~= Seq::<NodeId>::empty());
                assert(self@.nodes =~= self@.nodes.remove_keys(forest_ids(t.kids).to_set()));
            }
            let ghost mid = self@;
            if !string_is_const(ty) {
                let ks = self.key_id(id);
                match ks {
                    Some(sk) => {
                        self.set_key_id(id, None);
                        self.free_str(sk);
                    },
                    None => {},
                }
            }
            proof { self.lemma_live_slot_ok(id); }
            self.free_node_only(id);
            proof {
                let a = forest_ids(ts.take(k));
                assert(ts.take(k + 1) =~= ts.take(k) + seq![t]);
                lemma_forest_ids_append(ts.take(k), seq![t]);
                lemma_forest_strs_append(m0, ts.take(k), seq![t]);
                lemma_forest_single(m0, t);
                lemma_concat_to_set(a, tree_ids(t));
                lemma_concat_to_set(seq![t.id], forest_ids(t.kids));
                assert(m0.tree_strs(t) == m0.node_strs(t.id) + m0.forest_strs(t.kids));
                assert(self@.nodes =~= m0.nodes.remove_keys(forest_ids(ts.take(k + 1)).to_set()));
                assert(self@.strings =~= m0.strings.remove_keys(m0.forest_strs(ts.take(k + 1))));
            }
            cur = next;
            proof { k = k + 1; }
        }
        proof {
            if k < ts.len() {
                assert(false);
            }
            assert(ts.take(k) =~= ts);
        }
    }

    /// Whether a node handle is within the node slots (an index that does not panic).
    pub closed spec fn node_slot_ok(&self, id: NodeId) -> bool {
        id.0 < self.nodes@.len()
    }

    pub proof fn lemma_live_slot_ok(&self, id: NodeId)
        requires
            self@.live(id),
        ensures
            self.node_slot_ok(id),
    {
    }
}

} // verus!

verus! {

impl SafeStore {
    /// Distinct live nodes are no more than the node slots, so a count of them fits a `usize`.
    pub fn distinct_live_fit(&self, Ghost(s): Ghost<Seq<NodeId>>)
        requires
            s.no_duplicates(),
            forall|i: int| 0 <= i < s.len() ==> self@.live(#[trigger] s[i]),
        ensures
            s.len() <= usize::MAX,
    {
        let ghost ints = s.map_values(|x: NodeId| x.0 as int);
        assert(ints.no_duplicates()) by {
            assert forall|i: int, j: int| 0 <= i < j < ints.len() implies ints[i] != ints[j] by {
                assert(s[i] != s[j]);
            }
        }
        let ghost n = self.nodes@.len() as int;
        assert(ints.to_set().subset_of(vstd::set_lib::set_int_range(0, n))) by {
            assert forall|x: int| ints.to_set().contains(x) implies vstd::set_lib::set_int_range(0, n).contains(x) by {
                let i = choose|i: int| 0 <= i < ints.len() && ints[i] == x;
                assert(self@.live(s[i]));
            }
        }
        proof {
            vstd::set_lib::lemma_int_range(0, n);
            vstd::set_lib::lemma_len_subset(ints.to_set(), vstd::set_lib::set_int_range(0, n));
            ints.unique_seq_to_set();
        }
        let _ = self.nodes.len();
    }
}

} // verus!

verus! {

impl StoreView {
    /// Every live string handle is within the string slots.
    pub open spec fn slots_ok(self) -> bool {
        forall|s: StrId| #[trigger] self.strings.contains_key(s) ==> s.0 < self.str_slots
    }
}

impl SafeStore {
    /// Whether allocation is made to fail.
    pub fn allocs_fail(&self) -> (r: bool)
        ensures
            r == self@.fail_allocs,
    {
        self.fail_allocs
    }

    pub proof fn lemma_slots_ok(&self)
        ensures
            self@.slots_ok(),
    {
    }
}

/// What `steal_into` does: `dest` loses its key, its value string and the forest below it
/// (each freed), takes every field of `src`, and `src`'s node is freed.
pub open spec fn stolen(m: StoreView, dest: NodeId, src: NodeId) -> StoreView {
    let d = m.nodes[dest];
    let m1 = match d.key {
        Some(k) => StoreView { strings: m.strings.remove(k), ..m.with_node(dest, NodeData { key: None, ..d }) },
        None => m,
    };
    let m2 = match d.valuestring {
        Some(v) => StoreView { strings: m1.strings.remove(v), ..m1.with_node(dest, NodeData { valuestring: None, ..m1.nodes[dest] }) },
        None => m1,
    };
    let m3 = match d.child {
        Some(c) => {
            let md = m2.after_delete(m.forest(Some(c), true));
            md.with_node(dest, NodeData { child: None, ..md.nodes[dest] })
        },
        None => m2,
    };
    let m4 = m3.with_node(dest, m3.nodes[src]);
    StoreView { nodes: m4.nodes.remove(src), ..m4 }
}

impl SafeStore {
    /// Move `src` into `dest`: free what `dest` owns (key, value string, children), copy every
    /// field of `src` onto it, and free `src`'s node.
    pub fn steal_into(&mut self, dest: NodeId, src: NodeId)
        requires
            old(self)@.live(dest),
            old(self)@.live(src),
            dest != src,
            old(self)@.has_forest(old(self)@.nodes[dest].child, true),
            !forest_ids(old(self)@.forest(old(self)@.nodes[dest].child, true)).contains(dest),
            !forest_ids(old(self)@.forest(old(self)@.nodes[dest].child, true)).contains(src),
        ensures
            final(self)@ == stolen(old(self)@, dest, src),
    {
        let ghost m = self@;
        let ghost ts = m.forest(m.nodes[dest].child, true);
        match self.key_id(dest) {
            Some(s) => {
                self.set_key_id(dest, None);
                self.free_str(s);
            },
            None => {},
        }
        match self.valuestring_id(dest) {
            Some(s) => {
                self.set_valuestring_id(dest, None);
                self.free_str(s);
            },
            None => {},
        }
        match self.child(dest) {
            Some(c) => {
                proof {
                    let m2 = self@;
                    assert(m.forest_valid(Some(c), ts, true) && forest_ids(ts).no_duplicates());
                    assert(m.agrees_on(m2, forest_ids(ts).to_set())) by {
                        assert forall|x: NodeId| forest_ids(ts).to_set().contains(x) implies (m.live(x) == m2.live(x)
                            && (m.live(x) ==> m.nodes[x] == m2.nodes[x])) by {
                            assert(forest_ids(ts).contains(x));
                        }
                    }
                    crate::tree::lemma_forest_frame(m, m2, Some(c), ts, true);
                    crate::tree::lemma_forest_is(m2, Some(c), ts, true);
                }
                self.delete(Some(c));
                self.set_child(dest, None);
            },
            None => {},
        }
        proof {
            let m3 = self@;
            assert(m3.live(src)) by {
                assert(!forest_ids(ts).to_set().contains(src));
            }
            assert(m3.live(dest)) by {
                assert(!forest_ids(ts).to_set().contains(dest));
            }
        }
        self.copy_fields(dest, src);
        proof { self.lemma_live_slot_ok(src); }
        self.free_node_only(src);
    }
}

/// The key of `id`, as a new vector.
pub fn key_owned(store: &SafeStore, id: NodeId) -> (r: Option<Vec<u8>>)
    requires
        store@.live(id),
        store@.str_ok(store@.nodes[id].key),
    ensures
        match r { Some(v) => store@.key_of(id) == Some(v@), None => store@.key_of(id) is None },
{
    match store.key_bytes(id) {
        Some(b) => Some(vstd::slice::slice_to_vec(b)),
        None => None,
    }
}

/// The value string of `id`, as a new vector.
pub fn valuestring_owned(store: &SafeStore, id: NodeId) -> (r: Option<Vec<u8>>)
    requires
        store@.live(id),
        store@.str_ok(store@.nodes[id].valuestring),
    ensures
        match r { Some(v) => store@.valuestring_of(id) == Some(v@), None => store@.valuestring_of(id) is None },
{
    match store.valuestring_bytes(id) {
        Some(b) => Some(vstd::slice::slice_to_vec(b)),
        None => None,
    }
}

} // verus!
