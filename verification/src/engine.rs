//! The storage engine state.
//!
//! A [`Db`] value holds every logical instance of the store: a table of
//! prefix-addressed byte maps (each with its persisted length counter) and
//! an arena of snapshot nodes for the copy-on-write overlay. All handles in
//! this crate are plain identifiers into one `Db`; passing the same `Db` to
//! two handles with the same identifier is the aliasing the store defines.

use crate::kv::{assoc_view, distinct_keys, KvBuf};
use vstd::prelude::*;

verus! {

/// One prefix-addressed instance: its entries and its length counter.
pub struct Inst {
    /// The persisted entry count; kept equal to the number of entries.
    pub len: u64,
    /// The entries stored under this prefix.
    pub buf: KvBuf,
}

impl Inst {
    /// The counter agrees with the stored entries.
    pub open spec fn wf(self) -> bool {
        &&& self.buf.wf()
        &&& self.len == self.buf.kseq().len()
    }
}

/// One snapshot node of the copy-on-write overlay.
pub struct Node {
    /// The identifier under which this node is registered with its parent.
    pub id: Vec<u8>,
    /// Prefix of the instance holding this node's own entries.
    pub data: u64,
    /// The node read through when a key misses locally.
    pub parent: Option<u64>,
    /// Identifiers of the registered children, column-aligned with `kid_nids`.
    pub kid_ids: Vec<Vec<u8>>,
    /// Arena indices of the registered children.
    pub kid_nids: Vec<u64>,
}

/// The whole store.
pub struct Db {
    /// All instances; the prefix of an instance is its position here.
    pub insts: Vec<Inst>,
    /// All overlay nodes; the identity of a node is its position here.
    pub nodes: Vec<Node>,
}

impl Db {
    /// `p` names an allocated instance.
    pub open spec fn inst_ok(self, p: u64) -> bool {
        p < self.insts.len()
    }

    /// The map held under prefix `p`.
    pub open spec fn at(self, p: u64) -> Map<Seq<u8>, Seq<u8>> {
        self.insts[p as int].buf@
    }

    /// `n` names an allocated overlay node.
    pub open spec fn node_ok(self, n: u64) -> bool {
        n < self.nodes.len()
    }

    /// The node at arena index `n`.
    pub open spec fn node(self, n: u64) -> Node {
        self.nodes[n as int]
    }

    /// The children registry of node `n`: child identifier to arena index.
    pub open spec fn kids(self, n: u64) -> Map<Seq<u8>, u64> {
        assoc_view(self.node(n).kid_ids.deep_view(), self.node(n).kid_nids@)
    }

    /// The entries held by node `n` itself.
    pub open spec fn data_of(self, n: u64) -> Map<Seq<u8>, Seq<u8>> {
        self.at(self.node(n).data)
    }

    /// Structural soundness of the node at index `i`: children columns
    /// aligned and distinct, links inside the arena, a parent strictly
    /// older than its child, each registered child carrying the identifier
    /// it is registered under, and a data prefix inside the instance table.
    pub open spec fn node_wf(self, i: int) -> bool {
        let n = self.nodes[i];
        &&& n.kid_ids.len() == n.kid_nids.len()
        &&& distinct_keys(n.kid_ids.deep_view())
        &&& (n.parent is Some ==> n.parent.unwrap() < i)
        &&& (n.data as int) < self.insts.len()
        &&& forall|j: int|
            0 <= j < n.kid_nids.len() ==> i < #[trigger] n.kid_nids@[j]
                && (n.kid_nids@[j] as int) < self.nodes.len()
        &&& forall|j: int|
            0 <= j < n.kid_nids.len() ==> self.nodes[#[trigger] n.kid_nids@[j] as int].id@
                == n.kid_ids.deep_view()[j]
    }

    /// Well-formedness of the whole store: every instance keeps its counter
    /// true, every node is structurally sound, and no two nodes share a
    /// data instance.
    /// Every node is registered as a child at most once over the whole
    /// arena, so the overlay is a forest of trees.
    pub open spec fn kid_slots_injective(self) -> bool {
        forall|a: int, i: int, b: int, j: int|
            0 <= a < self.nodes.len() && 0 <= i < self.nodes[a].kid_nids.len() && 0 <= b
                < self.nodes.len() && 0 <= j < self.nodes[b].kid_nids.len() && (a != b || i != j)
                ==> #[trigger] self.nodes[a].kid_nids@[i] != #[trigger] self.nodes[b].kid_nids@[j]
    }

    pub open spec fn wf(self) -> bool {
        &&& forall|i: int| 0 <= i < self.insts.len() ==> (#[trigger] self.insts[i]).wf()
        &&& forall|i: int| 0 <= i < self.nodes.len() ==> self.node_wf(i)
        &&& forall|i: int, j: int|
            0 <= i < self.nodes.len() && 0 <= j < self.nodes.len() && i != j
                ==> self.nodes[i].data != self.nodes[j].data
        &&& self.kid_slots_injective()
    }

    /// Between two states, only the instance under `p` changed: the tables
    /// keep their sizes, the nodes are untouched, and every other instance
    /// is byte-for-byte the one it was.
    pub open spec fn only_inst_changed(pre: Db, post: Db, p: u64) -> bool {
        &&& post.insts.len() == pre.insts.len()
        &&& post.nodes == pre.nodes
        &&& forall|q: u64|
            q < pre.insts.len() && q != p ==> post.insts[q as int] == pre.insts[q as int]
    }

    /// An empty store.
    pub fn new() -> (r: Db)
        ensures
            r.wf(),
            r.insts.len() == 0,
            r.nodes.len() == 0,
    {
        Db { insts: Vec::new(), nodes: Vec::new() }
    }

    /// Allocates a fresh, empty instance and returns its prefix.
    pub fn alloc_prefix(&mut self) -> (p: u64)
        requires
            old(self).wf(),
            old(self).insts.len() < u64::MAX,
        ensures
            final(self).wf(),
            p == old(self).insts.len(),
            final(self).insts.len() == old(self).insts.len() + 1,
            final(self).nodes == old(self).nodes,
            final(self).at(p) == Map::<Seq<u8>, Seq<u8>>::empty(),
            final(self).insts[p as int].len == 0,
            forall|q: u64|
                q < old(self).insts.len() ==> final(self).insts[q as int] == old(self).insts[q as int],
    {
        let p = self.insts.len() as u64;
        self.insts.push(Inst { len: 0, buf: KvBuf::new() });
        proof {
            assert forall|i: int| 0 <= i < self.nodes.len() implies self.node_wf(i) by {
                assert(old(self).node_wf(i));
            }
        }
        p
    }

    /// The persisted length counter of instance `p`.
    pub fn get_instance_len(&self, p: u64) -> (r: u64)
        requires
            self.inst_ok(p),
        ensures
            r == self.insts[p as int].len,
    {
        self.insts[p as usize].len
    }
}

} // verus!
