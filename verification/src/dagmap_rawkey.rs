//! A typed façade over the cached snapshot map: keys stay raw bytes,
//! values travel through the byte codec.

use crate::dag::{chain_get, node_cleared};
use crate::dagmap::DagMapRaw;
use crate::ende::ValueEnDe;
use crate::engine::Db;
use crate::error::Error;
use vstd::prelude::*;

verus! {

/// A cached snapshot map with typed values.
pub struct DagMapRawKey<V> {
    pub(crate) inner: DagMapRaw,
    pub(crate) marker: core::marker::PhantomData<V>,
}

impl<V: ValueEnDe> DagMapRawKey<V> {
    /// The wrapped raw handle.
    pub closed spec fn node_id(self) -> u64 {
        self.inner.node_id()
    }

    /// The handle is sound.
    pub closed spec fn valid(self, db: Db) -> bool {
        self.inner.valid(db)
    }

    /// What a raw read returns at this node.
    pub closed spec fn read(self, db: Db, k: Seq<u8>) -> Option<Seq<u8>> {
        self.inner.read(db, k)
    }

    /// The staged writes not yet committed.
    pub closed spec fn cache_map(self) -> Map<Seq<u8>, Seq<u8>> {
        self.inner.cache_map()
    }

    /// Creates a node under `id`, reading through `raw_parent` when one
    /// is given. Refused when the parent already has a child under `id`.
    pub fn new(db: &mut Db, id: Vec<u8>, raw_parent: Option<&DagMapRaw>) -> (r: Result<
        DagMapRawKey<V>,
        Error,
    >)
        requires
            old(db).wf(),
            old(db).insts.len() < u64::MAX,
            old(db).nodes.len() < u64::MAX,
            raw_parent is Some ==> raw_parent.unwrap().valid(*old(db)),
        ensures
            final(db).wf(),
            match r {
                Ok(d) => {
                    &&& d.valid(*final(db))
                    &&& d.cache_map() == Map::<Seq<u8>, Seq<u8>>::empty()
                    &&& (raw_parent is Some ==> !old(db).kids(
                        raw_parent.unwrap().node_id(),
                    ).contains_key(id@))
                    &&& (raw_parent is Some ==> final(db).kids(raw_parent.unwrap().node_id())
                        == old(db).kids(raw_parent.unwrap().node_id()).insert(id@, d.node_id()))
                    &&& forall|k: Seq<u8>|
                        chain_get(*final(db), d.node_id(), k) == (match raw_parent {
                            Some(p) => chain_get(*final(db), p.node_id(), k),
                            None => None,
                        })
                    &&& final(db).node(d.node_id()).id@ == id@
                    &&& final(db).node(d.node_id()).kid_nids@.len() == 0
                    &&& final(db).node(d.node_id()).kid_ids@.len() == 0
                    &&& final(db).data_of(d.node_id()) == Map::<Seq<u8>, Seq<u8>>::empty()
                },
                Err(e) => {
                    &&& e == Error::AlreadyExists
                    &&& raw_parent is Some
                    &&& old(db).kids(raw_parent.unwrap().node_id()).contains_key(id@)
                    &&& *final(db) == *old(db)
                },
            },
    {
        match DagMapRaw::new(db, id, raw_parent) {
            Ok(inner) => Ok(DagMapRawKey { inner, marker: core::marker::PhantomData }),
            Err(e) => Err(e),
        }
    }

    /// Hands the raw handle out.
    pub fn into_inner(self) -> (r: DagMapRaw)
        ensures
            r.node_id() == self.node_id(),
    {
        self.inner
    }

    /// A second raw handle onto the same node. The two alias; the caller
    /// answers for keeping use race-free.
    pub fn shadow_inner(&self) -> (r: DagMapRaw)
        ensures
            r.node_id() == self.node_id(),
    {
        self.inner.shadow()
    }

    /// Reads `key` and decodes the stored bytes.
    pub fn get(&self, db: &Db, key: &Vec<u8>) -> (r: Option<V>)
        requires
            db.wf(),
            self.valid(*db),
        ensures
            match r {
                Some(v) => self.read(*db, key@) == Some(v.spec_enc()),
                None => self.read(*db, key@) is None || !V::decodable(
                    self.read(*db, key@).unwrap(),
                ),
            },
    {
        match self.inner.get(db, key) {
            Some(bytes) => {
                match V::decode(&bytes) {
                    Ok(v) => Some(v),
                    Err(_) => None,
                }
            },
            None => None,
        }
    }

    /// Stages `key = value` in the cache.
    pub fn insert(&mut self, db: &Db, key: &Vec<u8>, value: &V) -> (prev: Option<V>)
        requires
            db.wf(),
            old(self).valid(*db),
        ensures
            final(self).valid(*db),
            final(self).node_id() == old(self).node_id(),
            value.spec_enc().len() > 0 ==> final(self).read(*db, key@) == Some(value.spec_enc()),
            forall|k2: Seq<u8>|
                k2 != key@ ==> final(self).read(*db, k2) == old(self).read(*db, k2),
    {
        let enc = value.encode();
        let prev = self.inner.insert(db, key, &enc);
        match prev {
            Some(bytes) => {
                match V::decode(&bytes) {
                    Ok(v) => Some(v),
                    Err(_) => None,
                }
            },
            None => None,
        }
    }

    /// Writes `key = value` straight into this node's entries, past the
    /// cache.
    pub fn insert_direct(&self, db: &mut Db, key: &Vec<u8>, value: &V) -> (prev: Option<V>)
        requires
            old(db).wf(),
            self.valid(*old(db)),
        ensures
            final(db).wf(),
            self.valid(*final(db)),
            value.spec_enc().len() > 0 ==> chain_get(*final(db), self.node_id(), key@) == Some(
                value.spec_enc(),
            ),
            match prev {
                Some(p) => old(db).data_of(self.node_id()).contains_key(key@) && p.spec_enc()
                    == old(db).data_of(self.node_id())[key@],
                None => !old(db).data_of(self.node_id()).contains_key(key@) || !V::decodable(
                    old(db).data_of(self.node_id())[key@],
                ),
            },
    {
        let enc = value.encode();
        let prev = self.inner.insert_direct(db, key, &enc);
        match prev {
            Some(bytes) => {
                match V::decode(&bytes) {
                    Ok(v) => Some(v),
                    Err(_) => None,
                }
            },
            None => None,
        }
    }

    /// Stages a deletion mark for `key`.
    pub fn remove(&mut self, db: &Db, key: &Vec<u8>) -> (prev: Option<V>)
        requires
            db.wf(),
            old(self).valid(*db),
        ensures
            final(self).valid(*db),
            final(self).node_id() == old(self).node_id(),
            // the removal is a staged deletion mark, not a physical delete
            final(self).cache_map() == old(self).cache_map().insert(key@, Seq::empty()),
            final(self).read(*db, key@) is None,
            forall|k2: Seq<u8>|
                k2 != key@ ==> final(self).read(*db, k2) == old(self).read(*db, k2),
            match prev {
                Some(p) => (old(self).cache_map().contains_key(key@) && p.spec_enc() == old(
                    self,
                ).cache_map()[key@]) || (!old(self).cache_map().contains_key(key@) && db.data_of(
                    old(self).node_id(),
                ).contains_key(key@) && p.spec_enc() == db.data_of(old(self).node_id())[key@]),
                None => true,
            },
    {
        let prev = self.inner.remove(db, key);
        match prev {
            Some(bytes) => {
                match V::decode(&bytes) {
                    Ok(v) => Some(v),
                    Err(_) => None,
                }
            },
            None => None,
        }
    }

    /// Writes a deletion mark for `key`, past the cache.
    pub fn remove_direct(&self, db: &mut Db, key: &Vec<u8>) -> (prev: Option<V>)
        requires
            old(db).wf(),
            self.valid(*old(db)),
        ensures
            final(db).wf(),
            self.valid(*final(db)),
            chain_get(*final(db), self.node_id(), key@) is None,
    {
        let prev = self.inner.remove_direct(db, key);
        match prev {
            Some(bytes) => {
                match V::decode(&bytes) {
                    Ok(v) => Some(v),
                    Err(_) => None,
                }
            },
            None => None,
        }
    }

    /// Flushes every staged write into this node's entries.
    pub fn commit(&mut self, db: &mut Db)
        requires
            old(db).wf(),
            old(self).valid(*old(db)),
        ensures
            final(db).wf(),
            final(self).valid(*final(db)),
            final(self).node_id() == old(self).node_id(),
            final(self).cache_map() == Map::<Seq<u8>, Seq<u8>>::empty(),
            forall|k: Seq<u8>|
                chain_get(*final(db), final(self).node_id(), k) == old(self).read(*old(db), k),
            forall|k: Seq<u8>| final(self).read(*final(db), k) == old(self).read(*old(db), k),
    {
        self.inner.commit(db);
    }

    /// Collapses the mainline above this head; refused while staged
    /// writes are pending.
    pub fn prune(self, db: &mut Db) -> (r: Result<DagMapRawKey<V>, Error>)
        requires
            old(db).wf(),
            self.valid(*old(db)),
        ensures
            final(db).wf(),
            match r {
                Ok(g) => {
                    &&& self.cache_map().dom().len() == 0
                    &&& g.valid(*final(db))
                    &&& g.cache_map() == Map::<Seq<u8>, Seq<u8>>::empty()
                    &&& final(db).node(g.node_id()).parent is None
                    &&& forall|k: Seq<u8>|
                        chain_get(*final(db), g.node_id(), k) == chain_get(
                            *old(db),
                            self.node_id(),
                            k,
                        )
                    &&& final(db).kids(g.node_id()) == old(db).kids(self.node_id())
                    &&& (old(db).node(self.node_id()).parent is Some ==> node_cleared(
                        *final(db),
                        self.node_id(),
                    ) && final(db).node(self.node_id()).parent is None)
                },
                Err(e) => {
                    &&& e == Error::DirtyCache
                    &&& self.cache_map().dom().len() > 0
                    &&& *final(db) == *old(db)
                },
            },
    {
        match self.inner.prune(db) {
            Ok(inner) => Ok(DagMapRawKey { inner, marker: core::marker::PhantomData }),
            Err(e) => Err(e),
        }
    }

    /// Drops the children whose identifiers are listed.
    pub fn prune_children_include(&self, db: &mut Db, include_targets: &Vec<Vec<u8>>)
        requires
            old(db).wf(),
            self.valid(*old(db)),
        ensures
            final(db).wf(),
            self.valid(*final(db)),
            // the registry keeps exactly the surviving identifiers
            forall|id: Seq<u8>|
                #[trigger] final(db).kids(self.node_id()).contains_key(id) <==> (old(db).kids(
                    self.node_id(),
                ).contains_key(id) && !include_targets.deep_view().contains(id)),
            forall|id: Seq<u8>|
                #[trigger] final(db).kids(self.node_id()).contains_key(id) ==> final(db).kids(
                    self.node_id(),
                )[id] == old(db).kids(self.node_id())[id],
            forall|id: Seq<u8>|
                #[trigger] old(db).kids(self.node_id()).contains_key(id) && include_targets.deep_view().contains(id)
                    ==> node_cleared(*final(db), old(db).kids(self.node_id())[id]),
            // a dropped child's whole subtree is destroyed
            forall|id: Seq<u8>, m: u64|
                #![trigger old(db).kids(self.node_id()).contains_key(id), crate::dag::subtree(*old(db), old(db).kids(self.node_id())[id]).contains(m)]
                old(db).kids(self.node_id()).contains_key(id) && include_targets.deep_view().contains(id)
                    && crate::dag::subtree(*old(db), old(db).kids(self.node_id())[id]).contains(m)
                    ==> node_cleared(*final(db), m),
            // the kept children's subtrees and the node's own entries are
            // untouched
            forall|id: Seq<u8>, m: u64|
                #![trigger old(db).kids(self.node_id()).contains_key(id), crate::dag::subtree(*old(db), old(db).kids(self.node_id())[id]).contains(m)]
                old(db).kids(self.node_id()).contains_key(id) && !include_targets.deep_view().contains(id)
                    && crate::dag::subtree(*old(db), old(db).kids(self.node_id())[id]).contains(m)
                    ==> final(db).nodes[m as int] == old(db).nodes[m as int],
            final(db).at(old(db).node(self.node_id()).data) == old(db).at(
                old(db).node(self.node_id()).data,
            ),
    {
        self.inner.prune_children_include(db, include_targets);
        proof {
            assert forall|id: Seq<u8>, m: u64|
                #![trigger old(db).kids(self.node_id()).contains_key(id), crate::dag::subtree(*old(db), old(db).kids(self.node_id())[id]).contains(m)]
                old(db).kids(self.node_id()).contains_key(id) && !include_targets.deep_view().contains(id)
                    && crate::dag::subtree(*old(db), old(db).kids(self.node_id())[id]).contains(m)
                    implies db.nodes[m as int] == old(db).nodes[m as int] by {
                assert(self.node_id() == self.inner.node_id());
                assert(old(db).kids(self.inner.node_id()).contains_key(id));
                assert(crate::dag::subtree(
                    *old(db),
                    old(db).kids(self.inner.node_id())[id],
                ).contains(m));
            }
        }
            assert forall|id: Seq<u8>| #[trigger] db.kids(self.node_id()).contains_key(id)
                implies db.kids(self.node_id())[id] == old(db).kids(self.node_id())[id] by {
                assert(db.kids(self.inner.node_id()).contains_key(id));
            }
            assert forall|id: Seq<u8>| #[trigger] db.kids(self.node_id()).contains_key(id)
                implies db.kids(self.node_id())[id] == old(db).kids(self.node_id())[id] by {
                assert(db.kids(self.inner.node_id()).contains_key(id));
            }
            assert forall|id: Seq<u8>|
                old(db).kids(self.node_id()).contains_key(id)
                    && include_targets.deep_view().contains(id) implies node_cleared(
                *db,
                old(db).kids(self.node_id())[id],
            ) by {
                assert(old(db).kids(self.inner.node_id()).contains_key(id));
            }

    }

    /// Drops every child whose identifier is not listed.
    pub fn prune_children_exclude(&self, db: &mut Db, exclude_targets: &Vec<Vec<u8>>)
        requires
            old(db).wf(),
            self.valid(*old(db)),
        ensures
            final(db).wf(),
            self.valid(*final(db)),
            // the registry keeps exactly the surviving identifiers
            forall|id: Seq<u8>|
                #[trigger] final(db).kids(self.node_id()).contains_key(id) <==> (old(db).kids(
                    self.node_id(),
                ).contains_key(id) && exclude_targets.deep_view().contains(id)),
            forall|id: Seq<u8>|
                #[trigger] final(db).kids(self.node_id()).contains_key(id) ==> final(db).kids(
                    self.node_id(),
                )[id] == old(db).kids(self.node_id())[id],
            forall|id: Seq<u8>|
                #[trigger] old(db).kids(self.node_id()).contains_key(id) && !exclude_targets.deep_view().contains(id)
                    ==> node_cleared(*final(db), old(db).kids(self.node_id())[id]),
            // a dropped child's whole subtree is destroyed
            forall|id: Seq<u8>, m: u64|
                #![trigger old(db).kids(self.node_id()).contains_key(id), crate::dag::subtree(*old(db), old(db).kids(self.node_id())[id]).contains(m)]
                old(db).kids(self.node_id()).contains_key(id) && !exclude_targets.deep_view().contains(id)
                    && crate::dag::subtree(*old(db), old(db).kids(self.node_id())[id]).contains(m)
                    ==> node_cleared(*final(db), m),
            // the kept children's subtrees and the node's own entries are
            // untouched
            forall|id: Seq<u8>, m: u64|
                #![trigger old(db).kids(self.node_id()).contains_key(id), crate::dag::subtree(*old(db), old(db).kids(self.node_id())[id]).contains(m)]
                old(db).kids(self.node_id()).contains_key(id) && exclude_targets.deep_view().contains(id)
                    && crate::dag::subtree(*old(db), old(db).kids(self.node_id())[id]).contains(m)
                    ==> final(db).nodes[m as int] == old(db).nodes[m as int],
            final(db).at(old(db).node(self.node_id()).data) == old(db).at(
                old(db).node(self.node_id()).data,
            ),
    {
        self.inner.prune_children_exclude(db, exclude_targets);
        proof {
            assert forall|id: Seq<u8>, m: u64|
                #![trigger old(db).kids(self.node_id()).contains_key(id), crate::dag::subtree(*old(db), old(db).kids(self.node_id())[id]).contains(m)]
                old(db).kids(self.node_id()).contains_key(id) && exclude_targets.deep_view().contains(id)
                    && crate::dag::subtree(*old(db), old(db).kids(self.node_id())[id]).contains(m)
                    implies db.nodes[m as int] == old(db).nodes[m as int] by {
                assert(self.node_id() == self.inner.node_id());
                assert(old(db).kids(self.inner.node_id()).contains_key(id));
                assert(crate::dag::subtree(
                    *old(db),
                    old(db).kids(self.inner.node_id())[id],
                ).contains(m));
            }
            assert forall|id: Seq<u8>| #[trigger] db.kids(self.node_id()).contains_key(id)
                implies db.kids(self.node_id())[id] == old(db).kids(self.node_id())[id] by {
                assert(db.kids(self.inner.node_id()).contains_key(id));
            }
            assert forall|id: Seq<u8>|
                old(db).kids(self.node_id()).contains_key(id)
                    && !exclude_targets.deep_view().contains(id) implies node_cleared(
                *db,
                old(db).kids(self.node_id())[id],
            ) by {
                assert(old(db).kids(self.inner.node_id()).contains_key(id));
            }
        }
    }
}

} // verus!
