//! The copy-on-write snapshot maps.
//!
//! A [`DagMap`] writes straight to its own entries; a [`DagMapRaw`]
//! additionally keeps an in-memory write cache that `commit` flushes.
//! Reads walk the parent chain and treat an empty value as a deletion
//! mark. `prune` collapses the chain into its root and hands the root
//! back as the new head.

use crate::bytes::bytes_clone;
use crate::dag::{
    chain_first, chain_get, collapse_mainline, kid_find, lemma_chain_first_local_insert,
    node_cleared, node_new, prune_kids_filter, raze_node,
};
use crate::engine::Db;
use crate::error::Error;
use crate::kv::KvBuf;
use crate::mapx::Mapx;
use vstd::prelude::*;

verus! {

/// A snapshot node handle without a write cache.
pub struct DagMap {
    pub(crate) nid: u64,
}

impl DagMap {
    /// The arena index this handle names.
    pub closed spec fn node_id(self) -> u64 {
        self.nid
    }

    /// A handle onto a known node, for the crate's own plumbing.
    pub(crate) fn from_nid(n: u64) -> (d: DagMap)
        ensures
            d.node_id() == n,
    {
        DagMap { nid: n }
    }

    /// The handle names an allocated node.
    pub open spec fn valid(self, db: Db) -> bool {
        db.node_ok(self.node_id())
    }

    /// What a read returns at this node: the nearest binding on the
    /// chain, an empty value standing for a deleted key.
    pub open spec fn read(self, db: Db, k: Seq<u8>) -> Option<Seq<u8>> {
        chain_get(db, self.node_id(), k)
    }

    /// The nearest binding on the chain, before deletion marks apply.
    pub open spec fn first(self, db: Db, k: Seq<u8>) -> Option<Seq<u8>> {
        chain_first(db, self.node_id(), k)
    }

    /// Creates a node under `id`, reading through `parent` when one is
    /// given. Refused when the parent already has a child under `id`.
    pub fn new(db: &mut Db, id: Vec<u8>, parent: Option<&DagMap>) -> (r: Result<DagMap, Error>)
        requires
            old(db).wf(),
            old(db).insts.len() < u64::MAX,
            old(db).nodes.len() < u64::MAX,
            parent is Some ==> parent.unwrap().valid(*old(db)),
        ensures
            final(db).wf(),
            match r {
                Ok(d) => {
                    &&& d.valid(*final(db))
                    &&& (parent is Some ==> !old(db).kids(
                        parent.unwrap().node_id(),
                    ).contains_key(id@))
                    &&& (parent is Some ==> final(db).kids(parent.unwrap().node_id()) == old(
                        db,
                    ).kids(parent.unwrap().node_id()).insert(id@, d.node_id()))
                    &&& forall|k: Seq<u8>|
                        d.read(*final(db), k) == (match parent {
                            Some(p) => p.read(*final(db), k),
                            None => None,
                        })
                    &&& (parent is Some ==> forall|k: Seq<u8>|
                        parent.unwrap().read(*final(db), k) == parent.unwrap().read(*old(db), k))
                    &&& final(db).node(d.node_id()).id@ == id@
                    &&& final(db).node(d.node_id()).kid_nids@.len() == 0
                    &&& final(db).node(d.node_id()).kid_ids@.len() == 0
                    &&& final(db).data_of(d.node_id()) == Map::<Seq<u8>, Seq<u8>>::empty()
                    &&& final(db).node(d.node_id()).parent == (match parent {
                        Some(p) => Some(p.node_id()),
                        None => None::<u64>,
                    })
                    &&& final(db).nodes.len() == old(db).nodes.len() + 1
                    &&& final(db).insts.len() == old(db).insts.len() + 1
                },
                Err(e) => {
                    &&& e == Error::AlreadyExists
                    &&& parent is Some
                    &&& old(db).kids(parent.unwrap().node_id()).contains_key(id@)
                    &&& *final(db) == *old(db)
                },
            },
    {
        let pn = match parent {
            Some(p) => Some(p.nid),
            None => None,
        };
        let res = node_new(db, &id, pn);
        match res {
            Ok(n) => {
                proof {
                    let fin = *db;
                    assert forall|k: Seq<u8>|
                        chain_get(fin, n, k) == (match parent {
                            Some(p) => chain_get(fin, p.node_id(), k),
                            None => None,
                        }) by {
                        assert(fin.data_of(n) == Map::<Seq<u8>, Seq<u8>>::empty());
                        assert(!fin.data_of(n).contains_key(k));
                    }
                    match parent {
                        Some(p) => {
                            assert forall|k: Seq<u8>|
                                chain_first(fin, p.node_id(), k) == chain_first(
                                    *old(db),
                                    p.node_id(),
                                    k,
                                ) by {
                                assert forall|m: u64|
                                    m <= p.node_id() implies #[trigger] fin.node(m).parent == old(
                                    db,
                                ).node(m).parent by {}
                                assert forall|m: u64|
                                    m <= p.node_id() implies #[trigger] fin.node(m).data == old(
                                    db,
                                ).node(m).data by {}
                                assert forall|m: u64|
                                    m <= p.node_id() implies fin.at(
                                    #[trigger] old(db).node(m).data,
                                ) == old(db).at(old(db).node(m).data) by {
                                    assert(old(db).node_wf(m as int));
                                }
                                crate::dag::lemma_chain_first_stable(
                                    *old(db),
                                    fin,
                                    p.node_id(),
                                    k,
                                );
                            }
                        },
                        None => {},
                    }
                }
                Ok(DagMap { nid: n })
            },
            Err(e) => Err(e),
        }
    }

    /// Reads `key` through the chain.
    pub fn get(&self, db: &Db, key: &Vec<u8>) -> (r: Option<Vec<u8>>)
        requires
            db.wf(),
            self.valid(*db),
        ensures
            match r {
                Some(v) => self.read(*db, key@) == Some(v@),
                None => self.read(*db, key@) is None,
            },
    {
        let mut cur: u64 = self.nid;
        loop
            invariant
                db.wf(),
                db.node_ok(cur),
                chain_get(*db, self.node_id(), key@) == chain_get(*db, cur, key@),
                chain_first(*db, self.node_id(), key@) == chain_first(*db, cur, key@),
            decreases cur,
        {
            proof {
                assert(db.node_wf(cur as int));
            }
            let data = Mapx::from_raw(db.nodes[cur as usize].data);
            match data.get(db, key) {
                Some(v) => {
                    if v.len() == 0 {
                        return None;
                    }
                    return Some(v);
                },
                None => {
                    match db.nodes[cur as usize].parent {
                        Some(p) => {
                            cur = p;
                        },
                        None => {
                            return None;
                        },
                    }
                },
            }
        }
    }

    /// Binds `key` in this node's own entries; returns this node's own
    /// previous binding, if any. Reads under any other key are untouched.
    pub fn insert(&self, db: &mut Db, key: &Vec<u8>, value: &Vec<u8>) -> (prev: Option<Vec<u8>>)
        requires
            old(db).wf(),
            self.valid(*old(db)),
        ensures
            final(db).wf(),
            self.valid(*final(db)),
            final(db).nodes == old(db).nodes,
            final(db).insts.len() == old(db).insts.len(),
            Db::only_inst_changed(*old(db), *final(db), old(db).node(self.node_id()).data),
            self.first(*final(db), key@) == Some(value@),
            forall|k2: Seq<u8>| k2 != key@ ==> self.first(*final(db), k2) == self.first(*old(db), k2),
            forall|k2: Seq<u8>| k2 != key@ ==> self.read(*final(db), k2) == self.read(*old(db), k2),
            value@.len() > 0 ==> self.read(*final(db), key@) == Some(value@),
            value@.len() == 0 ==> self.read(*final(db), key@) is None,
            match prev {
                Some(p) => old(db).data_of(self.node_id()).contains_key(key@) && p@ == old(
                    db,
                ).data_of(self.node_id())[key@],
                None => !old(db).data_of(self.node_id()).contains_key(key@),
            },
    {
        proof {
            assert(old(db).node_wf(self.node_id() as int));
        }
        let data = Mapx::from_raw(db.nodes[self.nid as usize].data);
        let prev = data.insert(db, key, value);
        proof {
            let n = self.node_id();
            assert forall|m: u64|
                m < n implies final(db).at(#[trigger] old(db).node(m).data) == old(db).at(
                old(db).node(m).data,
            ) by {
                assert(old(db).node_wf(m as int));
                assert(old(db).node(m).data != old(db).node(n).data);
            }
            lemma_chain_first_local_insert(*old(db), *db, n, key@, value@);
        }
        prev
    }

    /// Marks `key` deleted at this node by binding it to the empty value,
    /// shadowing any binding an ancestor still holds.
    pub fn remove(&self, db: &mut Db, key: &Vec<u8>) -> (prev: Option<Vec<u8>>)
        requires
            old(db).wf(),
            self.valid(*old(db)),
        ensures
            final(db).wf(),
            self.valid(*final(db)),
            final(db).nodes == old(db).nodes,
            final(db).insts.len() == old(db).insts.len(),
            self.read(*final(db), key@) is None,
            forall|k2: Seq<u8>| k2 != key@ ==> self.read(*final(db), k2) == self.read(*old(db), k2),
            match prev {
                Some(p) => old(db).data_of(self.node_id()).contains_key(key@) && p@ == old(
                    db,
                ).data_of(self.node_id())[key@],
                None => !old(db).data_of(self.node_id()).contains_key(key@),
            },
    {
        let empty: Vec<u8> = Vec::new();
        self.insert(db, key, &empty)
    }

    /// Collapses the mainline above this head: every ancestor's entries
    /// are folded into the chain's root, this head's children move to the
    /// root, whatever else hung off the chain is cleared, and the root
    /// comes back as the new head. Every key reads the same at the new
    /// head as it did here.
    pub fn prune(self, db: &mut Db) -> (r: DagMap)
        requires
            old(db).wf(),
            self.valid(*old(db)),
        ensures
            final(db).wf(),
            r.valid(*final(db)),
            final(db).node(r.node_id()).parent is None,
            forall|k: Seq<u8>| r.read(*final(db), k) == self.read(*old(db), k),
            forall|k: Seq<u8>| r.first(*final(db), k) == self.first(*old(db), k),
            final(db).kids(r.node_id()) == old(db).kids(self.node_id()),
            final(db).insts.len() == old(db).insts.len(),
            final(db).nodes.len() == old(db).nodes.len(),
            // the old head ends cleared and detached; the moved children
            // keep their own shape and now read through the new head; and
            // every former genesis-subtree node not under a moved child
            // is left cleared
            old(db).node(self.node_id()).parent is Some ==> node_cleared(
                *final(db),
                self.node_id(),
            ) && final(db).node(self.node_id()).parent is None,
            old(db).node(self.node_id()).parent is Some ==> forall|id: Seq<u8>|
                #[trigger] old(db).kids(self.node_id()).contains_key(id) ==> ({
                    let c = old(db).kids(self.node_id())[id];
                    &&& final(db).node(c).parent == Some(r.node_id())
                    &&& final(db).nodes[c as int].id == old(db).nodes[c as int].id
                    &&& final(db).nodes[c as int].data == old(db).nodes[c as int].data
                    &&& final(db).nodes[c as int].kid_ids == old(db).nodes[c as int].kid_ids
                    &&& final(db).nodes[c as int].kid_nids == old(db).nodes[c as int].kid_nids
                }),
            old(db).node(self.node_id()).parent is Some ==> forall|m: u64|
                #[trigger] crate::dag::subtree(*old(db), r.node_id()).contains(m) && m
                    != r.node_id() && (forall|id: Seq<u8>|
                    #[trigger] old(db).kids(self.node_id()).contains_key(id) ==> !crate::dag::subtree(
                        *old(db),
                        old(db).kids(self.node_id())[id],
                    ).contains(m)) ==> node_cleared(*final(db), m),
            // parent links move only at the head and the adopted children
            forall|m: u64|
                m < old(db).nodes.len() && m != self.node_id() && (forall|id: Seq<u8>|
                    #[trigger] old(db).kids(self.node_id()).contains_key(id) ==> m != old(db).kids(
                        self.node_id(),
                    )[id]) ==> final(db).nodes[m as int].parent == old(db).nodes[m as int].parent,
    {
        let g = collapse_mainline(db, self.nid);
        DagMap { nid: g }
    }

    /// Drops every child whose identifier is not listed; a dropped
    /// child's subtree is cleared but its parent links are left, so stale
    /// handles below it read through to this node.
    pub fn prune_children(&self, db: &mut Db, keep_only: &Vec<Vec<u8>>)
        requires
            old(db).wf(),
            self.valid(*old(db)),
        ensures
            final(db).wf(),
            self.valid(*final(db)),
            forall|id: Seq<u8>|
                #[trigger] final(db).kids(self.node_id()).contains_key(id) <==> (old(db).kids(
                    self.node_id(),
                ).contains_key(id) && keep_only.deep_view().contains(id)),
            forall|id: Seq<u8>|
                #[trigger] final(db).kids(self.node_id()).contains_key(id) ==> final(db).kids(
                    self.node_id(),
                )[id] == old(db).kids(self.node_id())[id],
            forall|id: Seq<u8>|
                #[trigger] old(db).kids(self.node_id()).contains_key(id)
                    && !keep_only.deep_view().contains(id) ==> node_cleared(
                    *final(db),
                    old(db).kids(self.node_id())[id],
                ),
            // a dropped child's whole subtree is cleared
            forall|id: Seq<u8>, m: u64|
                #![trigger old(db).kids(self.node_id()).contains_key(id), crate::dag::subtree(*old(db), old(db).kids(self.node_id())[id]).contains(m)]
                old(db).kids(self.node_id()).contains_key(id) && !keep_only.deep_view().contains(id)
                    && crate::dag::subtree(*old(db), old(db).kids(self.node_id())[id]).contains(m)
                    ==> node_cleared(*final(db), m),
            // the kept children's subtrees are untouched
            forall|id: Seq<u8>, m: u64|
                #![trigger old(db).kids(self.node_id()).contains_key(id), crate::dag::subtree(*old(db), old(db).kids(self.node_id())[id]).contains(m)]
                old(db).kids(self.node_id()).contains_key(id) && keep_only.deep_view().contains(id)
                    && crate::dag::subtree(*old(db), old(db).kids(self.node_id())[id]).contains(m)
                    ==> final(db).nodes[m as int] == old(db).nodes[m as int] && final(db).at(
                    old(db).nodes[m as int].data,
                ) == old(db).at(old(db).nodes[m as int].data),
            // the node's own entries and parent link are untouched
            final(db).at(old(db).node(self.node_id()).data) == old(db).at(
                old(db).node(self.node_id()).data,
            ),
            final(db).node(self.node_id()).parent == old(db).node(self.node_id()).parent,
            final(db).node(self.node_id()).data == old(db).node(self.node_id()).data,
            final(db).insts.len() == old(db).insts.len(),
            final(db).nodes.len() == old(db).nodes.len(),
    {
        prune_kids_filter(db, self.nid, keep_only, true, false);
    }

    /// Whether this node still reads through a parent.
    pub fn has_parent(&self, db: &Db) -> (r: bool)
        requires
            db.wf(),
            self.valid(*db),
        ensures
            r == (db.node(self.node_id()).parent is Some),
    {
        db.nodes[self.nid as usize].parent.is_some()
    }

    /// Whether this node has no registered children.
    pub fn children_is_empty(&self, db: &Db) -> (r: bool)
        requires
            db.wf(),
            self.valid(*db),
        ensures
            r == (db.node(self.node_id()).kid_nids@.len() == 0),
    {
        db.nodes[self.nid as usize].kid_nids.len() == 0
    }
}

/// A snapshot node handle with an in-memory write cache.
pub struct DagMapRaw {
    pub(crate) nid: u64,
    pub(crate) cache: KvBuf,
}

impl DagMapRaw {
    /// The arena index this handle names.
    pub closed spec fn node_id(self) -> u64 {
        self.nid
    }

    /// The staged writes not yet committed.
    pub closed spec fn cache_map(self) -> Map<Seq<u8>, Seq<u8>> {
        self.cache@
    }

    /// The handle names an allocated node and its cache is sound.
    pub open spec fn valid(self, db: Db) -> bool {
        db.node_ok(self.node_id()) && self.cache_ok()
    }

    /// The cache columns are well-formed.
    pub closed spec fn cache_ok(self) -> bool {
        self.cache.wf()
    }

    /// What a read returns here: the cache first, then the chain, an
    /// empty value standing for a deleted key.
    pub open spec fn read(self, db: Db, k: Seq<u8>) -> Option<Seq<u8>> {
        if self.cache_map().contains_key(k) {
            if self.cache_map()[k].len() == 0 {
                None
            } else {
                Some(self.cache_map()[k])
            }
        } else {
            chain_get(db, self.node_id(), k)
        }
    }

    /// Creates a node under `id`, reading through `parent` when one is
    /// given. Refused when the parent already has a child under `id`.
    pub fn new(db: &mut Db, id: Vec<u8>, parent: Option<&DagMapRaw>) -> (r: Result<
        DagMapRaw,
        Error,
    >)
        requires
            old(db).wf(),
            old(db).insts.len() < u64::MAX,
            old(db).nodes.len() < u64::MAX,
            parent is Some ==> parent.unwrap().valid(*old(db)),
        ensures
            final(db).wf(),
            match r {
                Ok(d) => {
                    &&& d.valid(*final(db))
                    &&& d.cache_map() == Map::<Seq<u8>, Seq<u8>>::empty()
                    &&& (parent is Some ==> !old(db).kids(
                        parent.unwrap().node_id(),
                    ).contains_key(id@))
                    &&& (parent is Some ==> final(db).kids(parent.unwrap().node_id()) == old(
                        db,
                    ).kids(parent.unwrap().node_id()).insert(id@, d.node_id()))
                    &&& forall|k: Seq<u8>|
                        chain_get(*final(db), d.node_id(), k) == (match parent {
                            Some(p) => chain_get(*final(db), p.node_id(), k),
                            None => None,
                        })
                    &&& final(db).node(d.node_id()).id@ == id@
                    &&& final(db).node(d.node_id()).kid_nids@.len() == 0
                    &&& final(db).node(d.node_id()).kid_ids@.len() == 0
                    &&& final(db).data_of(d.node_id()) == Map::<Seq<u8>, Seq<u8>>::empty()
                    &&& final(db).node(d.node_id()).parent == (match parent {
                        Some(p) => Some(p.node_id()),
                        None => None::<u64>,
                    })
                },
                Err(e) => {
                    &&& e == Error::AlreadyExists
                    &&& parent is Some
                    &&& old(db).kids(parent.unwrap().node_id()).contains_key(id@)
                    &&& *final(db) == *old(db)
                },
            },
    {
        let pn = match parent {
            Some(p) => Some(p.nid),
            None => None,
        };
        let res = node_new(db, &id, pn);
        match res {
            Ok(n) => {
                proof {
                    let fin = *db;
                    assert forall|k: Seq<u8>|
                        chain_get(fin, n, k) == (match parent {
                            Some(p) => chain_get(fin, p.node_id(), k),
                            None => None,
                        }) by {
                        assert(fin.data_of(n) == Map::<Seq<u8>, Seq<u8>>::empty());
                        assert(!fin.data_of(n).contains_key(k));
                    }
                }
                Ok(DagMapRaw { nid: n, cache: KvBuf::new() })
            },
            Err(e) => Err(e),
        }
    }

    /// A second handle to the same node, with a copy of the staged
    /// writes. Writes to the shared store alias; the caller answers for
    /// keeping use race-free.
    pub fn shadow(&self) -> (r: DagMapRaw)
        ensures
            r.node_id() == self.node_id(),
            self.cache_ok() ==> (r.cache_ok() && r.cache_map() == self.cache_map()),
    {
        let mut ks: Vec<Vec<u8>> = Vec::new();
        let mut vs: Vec<Vec<u8>> = Vec::new();
        let mut i: usize = 0;
        while i < self.cache.keys.len()
            invariant
                i <= self.cache.keys@.len(),
                ks@.len() == i,
                vs@.len() == i,
                forall|j: int| 0 <= j < i ==> #[trigger] ks@[j]@ == self.cache.keys@[j]@,
                forall|j: int|
                    0 <= j < i && j < self.cache.vals@.len() ==> #[trigger] vs@[j]@
                        == self.cache.vals@[j]@,
            decreases self.cache.keys@.len() - i,
        {
            ks.push(bytes_clone(&self.cache.keys[i]));
            if i < self.cache.vals.len() {
                vs.push(bytes_clone(&self.cache.vals[i]));
            }
            if i >= self.cache.vals.len() {
                vs.push(Vec::new());
            }
            i += 1;
        }
        let out = DagMapRaw { nid: self.nid, cache: KvBuf { keys: ks, vals: vs } };
        proof {
            assert(out.cache.kseq() =~~= self.cache.kseq()) by {
                assert forall|j: int|
                    0 <= j < ks@.len() implies out.cache.kseq()[j] =~= self.cache.kseq()[j] by {
                    assert(ks@[j].deep_view() =~= ks@[j]@);
                    assert(self.cache.keys@[j].deep_view() =~= self.cache.keys@[j]@);
                }
            }
            if self.cache.wf() {
                assert(out.cache.vseq() =~~= self.cache.vseq()) by {
                    assert forall|j: int|
                        0 <= j < vs@.len() implies out.cache.vseq()[j] =~= self.cache.vseq()[j] by {
                        assert(vs@[j].deep_view() =~= vs@[j]@);
                        assert(self.cache.vals@[j].deep_view() =~= self.cache.vals@[j]@);
                    }
                }
            }
        }
        out
    }

    /// Whether this node holds nothing at all: no entries, no parent, no
    /// children.
    pub fn is_dead(&self, db: &Db) -> (r: bool)
        requires
            db.wf(),
            self.valid(*db),
        ensures
            r == crate::dag::node_dead(*db, self.node_id()),
    {
        proof {
            assert(db.node_wf(self.node_id() as int));
        }
        let data = Mapx::from_raw(db.nodes[self.nid as usize].data);
        let de = data.is_empty(db);
        proof {
            db.insts[db.node(self.node_id()).data as int].buf.lemma_size();
            if de {
                assert(db.data_of(self.node_id()).dom() =~= Set::<Seq<u8>>::empty()) by {
                    if exists|k: Seq<u8>| db.data_of(self.node_id()).dom().contains(k) {
                        let k = choose|k: Seq<u8>| db.data_of(self.node_id()).dom().contains(k);
                        vstd::set::axiom_set_insert_len(
                            db.data_of(self.node_id()).dom().remove(k),
                            k,
                        );
                        assert(db.data_of(self.node_id()).dom().remove(k).insert(k) =~= db.data_of(
                            self.node_id(),
                        ).dom());
                        vstd::set_lib::lemma_len_subset(
                            db.data_of(self.node_id()).dom().remove(k),
                            db.data_of(self.node_id()).dom(),
                        );
                    }
                }
            }
        }
        de && db.nodes[self.nid as usize].parent.is_none() && db.nodes[self.nid
            as usize].kid_nids.len() == 0 && db.nodes[self.nid as usize].kid_ids.len() == 0
    }

    /// Reads `key`: the staged value if one exists, else the chain.
    pub fn get(&self, db: &Db, key: &Vec<u8>) -> (r: Option<Vec<u8>>)
        requires
            db.wf(),
            self.valid(*db),
        ensures
            match r {
                Some(v) => self.read(*db, key@) == Some(v@),
                None => self.read(*db, key@) is None,
            },
    {
        match self.cache.get(key) {
            Some(v) => {
                if v.len() == 0 {
                    None
                } else {
                    Some(v)
                }
            },
            None => {
                let d = DagMap { nid: self.nid };
                d.get(db, key)
            },
        }
    }

    /// Stages `key = value` in the cache; returns the previous staged
    /// value, or failing that this node's own stored binding.
    pub fn insert(&mut self, db: &Db, key: &Vec<u8>, value: &Vec<u8>) -> (prev: Option<Vec<u8>>)
        requires
            db.wf(),
            old(self).valid(*db),
        ensures
            final(self).valid(*db),
            final(self).node_id() == old(self).node_id(),
            final(self).cache_map() == old(self).cache_map().insert(key@, value@),
            forall|k2: Seq<u8>|
                k2 != key@ ==> final(self).read(*db, k2) == old(self).read(*db, k2),
            value@.len() > 0 ==> final(self).read(*db, key@) == Some(value@),
            value@.len() == 0 ==> final(self).read(*db, key@) is None,
            match prev {
                Some(p) => old(self).cache_map().contains_key(key@) && p@ == old(
                    self,
                ).cache_map()[key@] || (!old(self).cache_map().contains_key(key@) && db.data_of(
                    old(self).node_id(),
                ).contains_key(key@) && p@ == db.data_of(old(self).node_id())[key@]),
                None => !old(self).cache_map().contains_key(key@) && !db.data_of(
                    old(self).node_id(),
                ).contains_key(key@),
            },
    {
        proof {
            assert(db.node_wf(self.node_id() as int));
        }
        let prev = match self.cache.get(key) {
            Some(v) => Some(v),
            None => {
                let data = Mapx::from_raw(db.nodes[self.nid as usize].data);
                data.get(db, key)
            },
        };
        self.cache.set(bytes_clone(key), bytes_clone(value));
        prev
    }

    /// Writes `key = value` straight into this node's entries, past the
    /// cache.
    pub fn insert_direct(&self, db: &mut Db, key: &Vec<u8>, value: &Vec<u8>) -> (prev: Option<
        Vec<u8>,
    >)
        requires
            old(db).wf(),
            self.valid(*old(db)),
        ensures
            final(db).wf(),
            self.valid(*final(db)),
            final(db).nodes == old(db).nodes,
            final(db).insts.len() == old(db).insts.len(),
            chain_first(*final(db), self.node_id(), key@) == Some(value@),
            forall|k2: Seq<u8>|
                k2 != key@ ==> chain_first(*final(db), self.node_id(), k2) == chain_first(
                    *old(db),
                    self.node_id(),
                    k2,
                ),
            match prev {
                Some(p) => old(db).data_of(self.node_id()).contains_key(key@) && p@ == old(
                    db,
                ).data_of(self.node_id())[key@],
                None => !old(db).data_of(self.node_id()).contains_key(key@),
            },
    {
        let d = DagMap { nid: self.nid };
        let prev = d.insert(db, key, value);
        proof {
            assert(d.first(*db, key@) == Some(value@));
            assert forall|k2: Seq<u8>|
                k2 != key@ implies chain_first(*db, self.node_id(), k2) == chain_first(
                *old(db),
                self.node_id(),
                k2,
            ) by {
                assert(d.first(*db, k2) == d.first(*old(db), k2));
            }
        }
        prev
    }

    /// Stages a deletion mark for `key`.
    pub fn remove(&mut self, db: &Db, key: &Vec<u8>) -> (prev: Option<Vec<u8>>)
        requires
            db.wf(),
            old(self).valid(*db),
        ensures
            final(self).valid(*db),
            final(self).node_id() == old(self).node_id(),
            // the removal is a staged deletion mark, not a physical delete
            final(self).cache_map() == old(self).cache_map().insert(key@, Seq::empty()),
            final(self).read(*db, key@) is None,
            forall|k2: Seq<u8>|
                k2 != key@ ==> final(self).read(*db, k2) == old(self).read(*db, k2),
            match prev {
                Some(p) => old(self).cache_map().contains_key(key@) && p@ == old(
                    self,
                ).cache_map()[key@] || (!old(self).cache_map().contains_key(key@) && db.data_of(
                    old(self).node_id(),
                ).contains_key(key@) && p@ == db.data_of(old(self).node_id())[key@]),
                None => !old(self).cache_map().contains_key(key@) && !db.data_of(
                    old(self).node_id(),
                ).contains_key(key@),
            },
    {
        let empty: Vec<u8> = Vec::new();
        self.insert(db, key, &empty)
    }

    /// Writes a deletion mark for `key` straight into this node's
    /// entries, past the cache.
    pub fn remove_direct(&self, db: &mut Db, key: &Vec<u8>) -> (prev: Option<Vec<u8>>)
        requires
            old(db).wf(),
            self.valid(*old(db)),
        ensures
            final(db).wf(),
            self.valid(*final(db)),
            final(db).nodes == old(db).nodes,
            final(db).insts.len() == old(db).insts.len(),
            chain_get(*final(db), self.node_id(), key@) is None,
    {
        let empty: Vec<u8> = Vec::new();
        self.insert_direct(db, key, &empty)
    }

    /// Flushes every staged write into this node's entries and empties
    /// the cache: afterwards plain chain reads return what cached reads
    /// returned before.
    pub fn commit(&mut self, db: &mut Db)
        requires
            old(db).wf(),
            old(self).valid(*old(db)),
        ensures
            final(db).wf(),
            final(self).valid(*final(db)),
            final(self).node_id() == old(self).node_id(),
            final(self).cache_map() == Map::<Seq<u8>, Seq<u8>>::empty(),
            final(db).nodes == old(db).nodes,
            final(db).insts.len() == old(db).insts.len(),
            forall|k: Seq<u8>|
                final(self).read(*final(db), k) == old(self).read(*old(db), k),
    {
        let ghost pre = *old(self);
        let ghost db0 = *old(db);
        let n = self.cache.num();
        let mut i: usize = 0;
        while i < n
            invariant
                db.wf(),
                db0.wf(),
                self.valid(*db),
                self.nid == pre.nid,
                db.node_ok(pre.node_id()),
                self.cache == pre.cache,
                n == pre.cache.kseq().len(),
                i <= n,
                db.nodes == db0.nodes,
                db.insts.len() == db0.insts.len(),
                forall|k: Seq<u8>|
                    (exists|j: int| 0 <= j < i && #[trigger] pre.cache.kseq()[j] == k)
                        ==> chain_first(*db, pre.node_id(), k) == Some(pre.cache_map()[k]),
                forall|k: Seq<u8>|
                    !(exists|j: int| 0 <= j < i && #[trigger] pre.cache.kseq()[j] == k)
                        ==> chain_first(*db, pre.node_id(), k) == chain_first(
                        db0,
                        pre.node_id(),
                        k,
                    ),
            decreases n - i,
        {
            let k = self.cache.key_at(i);
            let v = self.cache.val_at(i);
            let d = DagMap { nid: self.nid };
            let ghost mid = *db;
            proof {
                pre.cache.lemma_size();
            }
            d.insert(db, &k, &v);
            proof {
                pre.cache.lemma_size();
                assert(chain_first(*db, pre.node_id(), k@) == Some(v@));
                assert(v@ == pre.cache_map()[k@]);
                assert forall|k2: Seq<u8>|
                    (exists|j: int| 0 <= j < i + 1 && #[trigger] pre.cache.kseq()[j] == k2)
                        implies chain_first(*db, pre.node_id(), k2) == Some(
                    pre.cache_map()[k2],
                ) by {
                    let seen = chain_first(mid, pre.node_id(), k2);
                    if k2 != k@ {
                        assert(exists|j: int|
                            0 <= j < i && #[trigger] pre.cache.kseq()[j] == k2);
                        assert(d.first(*db, k2) == d.first(mid, k2));
                        assert(chain_first(*db, pre.node_id(), k2) == seen);
                    }
                }
                assert forall|k2: Seq<u8>|
                    !(exists|j: int| 0 <= j < i + 1 && #[trigger] pre.cache.kseq()[j] == k2)
                        implies chain_first(*db, pre.node_id(), k2) == chain_first(
                    db0,
                    pre.node_id(),
                    k2,
                ) by {
                    let seen = chain_first(mid, pre.node_id(), k2);
                    assert(pre.cache.kseq()[i as int] != k2);
                    assert(!(exists|j: int| 0 <= j < i && #[trigger] pre.cache.kseq()[j] == k2));
                    assert(d.first(*db, k2) == d.first(mid, k2));
                    assert(chain_first(*db, pre.node_id(), k2) == seen);
                }
            }
            i += 1;
        }
        self.cache.clear();
        proof {
            pre.cache.lemma_size();
            assert forall|k: Seq<u8>|
                final(self).read(*db, k) == pre.read(db0, k) by {
                if pre.cache_map().contains_key(k) {
                    let j = choose|j: int|
                        0 <= j < pre.cache.kseq().len() && pre.cache.kseq()[j] == k;
                    assert(exists|j2: int|
                        0 <= j2 < n && #[trigger] pre.cache.kseq()[j2] == k);
                } else {
                    if exists|j: int| 0 <= j < n && #[trigger] pre.cache.kseq()[j] == k {
                        let j = choose|j: int| 0 <= j < n && #[trigger] pre.cache.kseq()[j] == k;
                        assert(pre.cache_map().contains_key(k));
                    }
                }
            }
        }
    }

    /// Collapses the mainline above this head, like [`DagMap::prune`].
    /// Refused while staged writes are pending.
    pub fn prune(self, db: &mut Db) -> (r: Result<DagMapRaw, Error>)
        requires
            old(db).wf(),
            self.valid(*old(db)),
        ensures
            final(db).wf(),
            match r {
                Ok(g) => {
                    &&& self.cache_map().dom().len() == 0
                    &&& g.valid(*final(db))
                    &&& g.cache_map() == Map::<Seq<u8>, Seq<u8>>::empty()
                    &&& final(db).node(g.node_id()).parent is None
                    &&& forall|k: Seq<u8>|
                        chain_get(*final(db), g.node_id(), k) == chain_get(
                            *old(db),
                            self.node_id(),
                            k,
                        )
                    &&& final(db).kids(g.node_id()) == old(db).kids(self.node_id())
                    // the old head ends cleared and detached
                    &&& (old(db).node(self.node_id()).parent is Some ==> node_cleared(
                        *final(db),
                        self.node_id(),
                    ) && final(db).node(self.node_id()).parent is None)
                    // the moved children keep their own shape and now read
                    // through the new head
                    &&& (old(db).node(self.node_id()).parent is Some ==> forall|id: Seq<u8>|
                        #[trigger] old(db).kids(self.node_id()).contains_key(id) ==> ({
                            let c = old(db).kids(self.node_id())[id];
                            &&& final(db).node(c).parent == Some(g.node_id())
                            &&& final(db).nodes[c as int].id == old(db).nodes[c as int].id
                            &&& final(db).nodes[c as int].data == old(db).nodes[c as int].data
                            &&& final(db).nodes[c as int].kid_ids == old(
                                db,
                            ).nodes[c as int].kid_ids
                            &&& final(db).nodes[c as int].kid_nids == old(
                                db,
                            ).nodes[c as int].kid_nids
                        }))
                    // every former genesis-subtree node not under a moved
                    // child is left cleared
                    &&& (old(db).node(self.node_id()).parent is Some ==> forall|m: u64|
                        #[trigger] crate::dag::subtree(*old(db), g.node_id()).contains(m) && m
                            != g.node_id() && (forall|id: Seq<u8>|
                            #[trigger] old(db).kids(self.node_id()).contains_key(id)
                                ==> !crate::dag::subtree(
                                *old(db),
                                old(db).kids(self.node_id())[id],
                            ).contains(m)) ==> node_cleared(*final(db), m))
                    // parent links move only at the head and the adopted
                    // children
                    &&& forall|m: u64|
                        m < old(db).nodes.len() && m != self.node_id() && (forall|id: Seq<u8>|
                            #[trigger] old(db).kids(self.node_id()).contains_key(id) ==> m != old(
                                db,
                            ).kids(self.node_id())[id]) ==> final(db).nodes[m as int].parent == old(
                            db,
                        ).nodes[m as int].parent
                },
                Err(e) => {
                    &&& e == Error::DirtyCache
                    &&& self.cache_map().dom().len() > 0
                    &&& *final(db) == *old(db)
                },
            },
    {
        proof {
            self.cache.lemma_size();
        }
        if self.cache.num() > 0 {
            return Err(Error::DirtyCache);
        }
        let g = collapse_mainline(db, self.nid);
        Ok(DagMapRaw { nid: g, cache: KvBuf::new() })
    }

    /// Drops the children whose identifiers are listed; each dropped
    /// child's subtree is destroyed outright.
    pub fn prune_children_include(&self, db: &mut Db, include_targets: &Vec<Vec<u8>>)
        requires
            old(db).wf(),
            self.valid(*old(db)),
        ensures
            final(db).wf(),
            self.valid(*final(db)),
            forall|id: Seq<u8>|
                #[trigger] final(db).kids(self.node_id()).contains_key(id) <==> (old(db).kids(
                    self.node_id(),
                ).contains_key(id) && !include_targets.deep_view().contains(id)),
            forall|id: Seq<u8>|
                #[trigger] final(db).kids(self.node_id()).contains_key(id) ==> final(db).kids(
                    self.node_id(),
                )[id] == old(db).kids(self.node_id())[id],
            forall|id: Seq<u8>|
                #[trigger] old(db).kids(self.node_id()).contains_key(id)
                    && include_targets.deep_view().contains(id) ==> node_cleared(
                    *final(db),
                    old(db).kids(self.node_id())[id],
                ),
            // a dropped child's whole subtree is cleared
            forall|id: Seq<u8>, m: u64|
                #![trigger old(db).kids(self.node_id()).contains_key(id), crate::dag::subtree(*old(db), old(db).kids(self.node_id())[id]).contains(m)]
                old(db).kids(self.node_id()).contains_key(id) && include_targets.deep_view().contains(id)
                    && crate::dag::subtree(*old(db), old(db).kids(self.node_id())[id]).contains(m)
                    ==> node_cleared(*final(db), m),
            // the kept children's subtrees are untouched
            forall|id: Seq<u8>, m: u64|
                #![trigger old(db).kids(self.node_id()).contains_key(id), crate::dag::subtree(*old(db), old(db).kids(self.node_id())[id]).contains(m)]
                old(db).kids(self.node_id()).contains_key(id) && !include_targets.deep_view().contains(id)
                    && crate::dag::subtree(*old(db), old(db).kids(self.node_id())[id]).contains(m)
                    ==> final(db).nodes[m as int] == old(db).nodes[m as int] && final(db).at(
                    old(db).nodes[m as int].data,
                ) == old(db).at(old(db).nodes[m as int].data),
            // the node's own entries and parent link are untouched
            final(db).at(old(db).node(self.node_id()).data) == old(db).at(
                old(db).node(self.node_id()).data,
            ),
            final(db).node(self.node_id()).parent == old(db).node(self.node_id()).parent,
            final(db).node(self.node_id()).data == old(db).node(self.node_id()).data,
    {
        prune_kids_filter(db, self.nid, include_targets, false, true);
    }

    /// Drops every child whose identifier is not listed; each dropped
    /// child's subtree is destroyed outright.
    pub fn prune_children_exclude(&self, db: &mut Db, exclude_targets: &Vec<Vec<u8>>)
        requires
            old(db).wf(),
            self.valid(*old(db)),
        ensures
            final(db).wf(),
            self.valid(*final(db)),
            forall|id: Seq<u8>|
                #[trigger] final(db).kids(self.node_id()).contains_key(id) <==> (old(db).kids(
                    self.node_id(),
                ).contains_key(id) && exclude_targets.deep_view().contains(id)),
            forall|id: Seq<u8>|
                #[trigger] final(db).kids(self.node_id()).contains_key(id) ==> final(db).kids(
                    self.node_id(),
                )[id] == old(db).kids(self.node_id())[id],
            forall|id: Seq<u8>|
                #[trigger] old(db).kids(self.node_id()).contains_key(id)
                    && !exclude_targets.deep_view().contains(id) ==> node_cleared(
                    *final(db),
                    old(db).kids(self.node_id())[id],
                ),
            // a dropped child's whole subtree is cleared
            forall|id: Seq<u8>, m: u64|
                #![trigger old(db).kids(self.node_id()).contains_key(id), crate::dag::subtree(*old(db), old(db).kids(self.node_id())[id]).contains(m)]
                old(db).kids(self.node_id()).contains_key(id) && !exclude_targets.deep_view().contains(id)
                    && crate::dag::subtree(*old(db), old(db).kids(self.node_id())[id]).contains(m)
                    ==> node_cleared(*final(db), m),
            // the kept children's subtrees are untouched
            forall|id: Seq<u8>, m: u64|
                #![trigger old(db).kids(self.node_id()).contains_key(id), crate::dag::subtree(*old(db), old(db).kids(self.node_id())[id]).contains(m)]
                old(db).kids(self.node_id()).contains_key(id) && exclude_targets.deep_view().contains(id)
                    && crate::dag::subtree(*old(db), old(db).kids(self.node_id())[id]).contains(m)
                    ==> final(db).nodes[m as int] == old(db).nodes[m as int] && final(db).at(
                    old(db).nodes[m as int].data,
                ) == old(db).at(old(db).nodes[m as int].data),
            // the node's own entries and parent link are untouched
            final(db).at(old(db).node(self.node_id()).data) == old(db).at(
                old(db).node(self.node_id()).data,
            ),
            final(db).node(self.node_id()).parent == old(db).node(self.node_id()).parent,
            final(db).node(self.node_id()).data == old(db).node(self.node_id()).data,
    {
        prune_kids_filter(db, self.nid, exclude_targets, true, true);
    }

    /// Destroys this node and everything below it: entries and registries
    /// cleared, parent links severed throughout.
    pub fn destroy(&mut self, db: &mut Db)
        requires
            old(db).wf(),
            old(self).valid(*old(db)),
        ensures
            final(db).wf(),
            final(self).valid(*final(db)),
            final(self).node_id() == old(self).node_id(),
            crate::dag::node_dead(*final(db), final(self).node_id()),
            final(self).cache_map() == Map::<Seq<u8>, Seq<u8>>::empty(),
            final(db).insts.len() == old(db).insts.len(),
            final(db).nodes.len() == old(db).nodes.len(),
            // the whole former subtree is recursively destroyed
            forall|m: u64|
                #[trigger] crate::dag::subtree(*old(db), old(self).node_id()).contains(m)
                    ==> crate::dag::node_dead(*final(db), m),
            // and nothing outside it is touched
            forall|m: u64|
                m < old(db).nodes.len() && !crate::dag::subtree(
                    *old(db),
                    old(self).node_id(),
                ).contains(m) ==> final(db).nodes[m as int] == old(db).nodes[m as int],
            forall|p: u64|
                p < old(db).insts.len() && !crate::dag::subtree_data_prefix(
                    *old(db),
                    old(self).node_id(),
                    p,
                ) ==> final(db).insts[p as int] == old(db).insts[p as int],
    {
        raze_node(db, self.nid, true);
        self.cache.clear();
        proof {
            assert(crate::dag::subtree(*old(db), old(self).node_id()).contains(
                old(self).node_id(),
            ));
        }
    }

    /// Whether the two handles name the same node.
    pub fn is_the_same_instance(&self, other_hdr: &DagMapRaw) -> (r: bool)
        ensures
            r == (self.node_id() == other_hdr.node_id()),
    {
        self.nid == other_hdr.nid
    }

    /// Whether this node has a child registered under `id`.
    pub fn has_child(&self, db: &Db, id: &Vec<u8>) -> (r: bool)
        requires
            db.wf(),
            self.valid(*db),
        ensures
            r == db.kids(self.node_id()).contains_key(id@),
    {
        match kid_find(db, self.nid, id) {
            Some(_) => true,
            None => false,
        }
    }

    /// Whether this node still reads through a parent.
    pub fn has_parent(&self, db: &Db) -> (r: bool)
        requires
            db.wf(),
            self.valid(*db),
        ensures
            r == (db.node(self.node_id()).parent is Some),
    {
        db.nodes[self.nid as usize].parent.is_some()
    }

    /// Whether this node has no registered children.
    pub fn children_is_empty(&self, db: &Db) -> (r: bool)
        requires
            db.wf(),
            self.valid(*db),
        ensures
            r == (db.node(self.node_id()).kid_nids@.len() == 0),
    {
        db.nodes[self.nid as usize].kid_nids.len() == 0
    }
}

} // verus!
verus! {

/// Read order: a read at a node returns its own binding when one exists,
/// seen through the deletion mark, and otherwise whatever its parent's
/// read returns; a root without a binding returns nothing.
pub proof fn lemma_read_order(db: Db, d: DagMap, k: Seq<u8>)
    requires
        db.wf(),
        d.valid(db),
    ensures
        d.read(db, k) == (if db.data_of(d.node_id()).contains_key(k) {
            if db.data_of(d.node_id())[k].len() == 0 {
                None
            } else {
                Some(db.data_of(d.node_id())[k])
            }
        } else {
            match db.node(d.node_id()).parent {
                Some(p) => chain_get(db, p, k),
                None => None,
            }
        }),
{
    assert(db.node_wf(d.node_id() as int));
}

/// Tombstone shadowing: a deletion mark at a child hides a key its
/// parent still binds, while the parent keeps answering with its own
/// binding.
pub proof fn lemma_tombstone_shadowing(
    db: Db,
    parent: DagMap,
    child: DagMap,
    k: Seq<u8>,
    v0: Seq<u8>,
)
    requires
        db.wf(),
        parent.valid(db),
        child.valid(db),
        db.node(child.node_id()).parent == Some(parent.node_id()),
        db.data_of(child.node_id()).contains_key(k),
        db.data_of(child.node_id())[k].len() == 0,
        parent.read(db, k) == Some(v0),
    ensures
        child.read(db, k) is None,
        parent.read(db, k) == Some(v0),
{
}

} // verus!
