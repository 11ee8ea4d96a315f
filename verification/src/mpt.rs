//! The versioned trie store.
//!
//! A [`TrieBackend`] is a snapshot node whose entries are committed trie
//! versions, each stored under its 32-byte Keccak-256 root. An
//! [`MptStore`] names live tips in `meta` and remembers every committed
//! root in `header_set`; an [`MptOnce`] is an owned working trie whose
//! `commit` registers the new root and moves onto a child backend.

use crate::bytes::{bytes_clone, bytes_eq, lemma_u64_bytes_roundtrip, u64_bytes, u64_from_bytes, u64_to_bytes, u64_unbytes};
use crate::dag::{chain_first, collapse_mainline, node_new, raze_node};
use crate::dagmap::DagMap;
use crate::ende::{coded_tail, enc_entries, enc_seg, encode_entries, entries_coded, lemma_coded_tail_step, push_seg, read_seg};
use crate::engine::Db;
use crate::error::Error;
use crate::keccak::{keccak256, keccak256_of};
use crate::kv::{distinct_keys, KvBuf};
use crate::mapx::Mapx;
use vstd::prelude::*;

verus! {

/// The root a content snapshot commits to.
pub open spec fn root_of(ks: Seq<Seq<u8>>, vs: Seq<Seq<u8>>) -> Seq<u8> {
    keccak256_of(enc_entries(ks, vs))
}

/// The backend chain holds an entry under `root`.
pub open spec fn backend_has(db: Db, b: u64, root: Seq<u8>) -> bool {
    chain_first(db, b, root) is Some
}

/// The bytes stored under `root` along the backend chain.
pub open spec fn stored(db: Db, b: u64, root: Seq<u8>) -> Seq<u8> {
    chain_first(db, b, root).unwrap()
}

/// A content-addressed version store: a snapshot node whose own entries
/// map committed roots to encoded contents, reading through the parent
/// backends for older versions.
pub struct TrieBackend {
    pub(crate) nid: u64,
}

impl TrieBackend {
    /// The arena index of the backend node.
    pub closed spec fn node_id(self) -> u64 {
        self.nid
    }

    /// The handle names an allocated node.
    pub open spec fn valid(self, db: Db) -> bool {
        db.node_ok(self.node_id())
    }

    /// A second handle onto the same backend.
    pub fn shadow(&self) -> (r: TrieBackend)
        ensures
            r.node_id() == self.node_id(),
    {
        TrieBackend { nid: self.nid }
    }

    /// Whether `root` is reachable through this backend's chain.
    pub fn contains(&self, db: &Db, root: &Vec<u8>) -> (r: bool)
        requires
            db.wf(),
            self.valid(*db),
        ensures
            r == backend_has(*db, self.node_id(), root@),
    {
        match raw_chain_get(db, self.nid, root) {
            Some(_) => true,
            None => false,
        }
    }
}

/// The first value under `k` on the chain from `n`, with no deletion-mark
/// reading: version stores never bind a root to the empty string by
/// construction, and lookups here must see exactly what is stored.
pub(crate) fn raw_chain_get(db: &Db, n: u64, k: &Vec<u8>) -> (r: Option<Vec<u8>>)
    requires
        db.wf(),
        db.node_ok(n),
    ensures
        match r {
            Some(v) => chain_first(*db, n, k@) == Some(v@),
            None => chain_first(*db, n, k@) is None,
        },
{
    let mut cur: u64 = n;
    loop
        invariant
            db.wf(),
            db.node_ok(cur),
            chain_first(*db, n, k@) == chain_first(*db, cur, k@),
        decreases cur,
    {
        proof {
            assert(db.node_wf(cur as int));
        }
        let data = Mapx::from_raw(db.nodes[cur as usize].data);
        match data.get(db, k) {
            Some(v) => {
                return Some(v);
            },
            None => {
                match db.nodes[cur as usize].parent {
                    Some(p) => {
                        cur = p;
                    },
                    None => {
                        return None;
                    },
                }
            },
        }
    }
}

/// Parses framed entry pairs back into columns. Succeeds exactly on
/// input that is the encoding of distinct-keyed columns, and then the
/// result re-encodes to the input.
pub fn decode_entries(b: &Vec<u8>) -> (r: Result<KvBuf, Error>)
    ensures
        match r {
            Ok(kb) => kb.wf() && enc_entries(kb.kseq(), kb.vseq()) == b@ && entries_coded(b@),
            Err(e) => e == Error::ShapeMismatch && !entries_coded(b@),
        },
{
    let mut kb = KvBuf::new();
    let mut pos: usize = 0;
    proof {
        if entries_coded(b@) {
            let (ks, vs) = choose|ks: Seq<Seq<u8>>, vs: Seq<Seq<u8>>|
                #![trigger enc_entries(ks, vs)]
                ks.len() == vs.len() && distinct_keys(ks) && (forall|i: int|
                    0 <= i < ks.len() ==> #[trigger] ks[i].len() < 0x1_0000_0000_0000_0000) && (
                forall|i: int|
                    0 <= i < vs.len() ==> #[trigger] vs[i].len() < 0x1_0000_0000_0000_0000)
                    && enc_entries(ks, vs) == b@;
            assert(b@.skip(0) =~= b@);
            assert(distinct_keys(kb.kseq() + ks)) by {
                assert(kb.kseq() + ks =~= ks);
            }
            assert(coded_tail(b@.skip(0), kb.kseq()));
        }
    }
    while pos < b.len()
        invariant
            pos <= b@.len(),
            kb.wf(),
            enc_entries(kb.kseq(), kb.vseq()) == b@.take(pos as int),
            entries_coded(b@) ==> coded_tail(b@.skip(pos as int), kb.kseq()),
        decreases b@.len() - pos,
    {
        proof {
            if entries_coded(b@) {
                lemma_coded_tail_step(b@, pos as int, kb.kseq());
            }
        }
        let ghost oldkb = kb;
        let ghost oldpos = pos as int;
        let (k, p2) = match read_seg(b, pos) {
            Ok(p) => p,
            Err(e) => {
                proof {
                    assert(!entries_coded(b@)) by {
                        if entries_coded(b@) {
                            assert(b@.len() - pos >= 16);
                        }
                    }
                }
                return Err(e);
            },
        };
        proof {
            if entries_coded(b@) {
                // the parsed segment is the witness's next key
                assert(b@.subrange(pos as int, pos + 8) =~= u64_bytes(k@.len() as u64)) by {
                    assert(forall|i: int|
                        0 <= i < 8 ==> #[trigger] b@.subrange(pos as int, pos + 8)[i]
                            == b@.subrange(pos as int, p2 as int)[i]);
                }
                lemma_u64_bytes_roundtrip(k@.len() as u64);
                assert(u64_unbytes(b@.subrange(pos as int, pos + 8)) == k@.len());
                assert(k@ =~= b@.subrange(pos + 8, p2 as int)) by {
                    assert(forall|i: int|
                        0 <= i < k@.len() ==> #[trigger] b@.subrange(pos + 8, p2 as int)[i]
                            == b@.subrange(pos as int, p2 as int)[8 + i]);
                }
            }
        }
        let (v, p3) = match read_seg(b, p2) {
            Ok(p) => p,
            Err(e) => {
                proof {
                    assert(!entries_coded(b@)) by {
                        if entries_coded(b@) {
                            assert(p2 <= b@.len());
                        }
                    }
                }
                return Err(e);
            },
        };
        proof {
            if entries_coded(b@) {
                assert(b@.subrange(p2 as int, p2 + 8) =~= u64_bytes(v@.len() as u64)) by {
                    assert(forall|i: int|
                        0 <= i < 8 ==> #[trigger] b@.subrange(p2 as int, p2 + 8)[i]
                            == b@.subrange(p2 as int, p3 as int)[i]);
                }
                lemma_u64_bytes_roundtrip(v@.len() as u64);
                assert(u64_unbytes(b@.subrange(p2 as int, p2 + 8)) == v@.len());
            }
        }
        if kb.has(&k) {
            proof {
                assert(!entries_coded(b@)) by {
                    if entries_coded(b@) {
                        kb.lemma_size();
                        let i = choose|i: int|
                            0 <= i < kb.kseq().len() && kb.kseq()[i] == k@;
                        assert(kb.kseq().contains(k@));
                    }
                }
            }
            return Err(Error::ShapeMismatch);
        }
        proof {
            kb.lemma_size();
        }
        let ghost pk = kb.kseq();
        let ghost pv = kb.vseq();
        kb.set(bytes_clone(&k), bytes_clone(&v));
        if p3 <= pos {
            proof {
                assert(false);
            }
        }
        pos = p3;
        proof {
            assert(kb.kseq() =~~= pk.push(k@));
            assert(kb.vseq() =~~= pv.push(v@));
            lemma_enc_push(pk, pv, k@, v@);
            assert(b@.take(pos as int) =~= b@.take(oldpos) + enc_seg(k@) + enc_seg(v@));
            if entries_coded(b@) {
                assert(coded_tail(b@.skip(pos as int), kb.kseq()));
            }
        }
    }
    proof {
        assert(b@.take(b@.len() as int) =~= b@);
        // the parsed columns witness the coding
        vstd::std_specs::vec::axiom_spec_len(&kb.keys);
        vstd::std_specs::vec::axiom_spec_len(&kb.vals);
        assert(forall|i: int|
            0 <= i < kb.kseq().len() ==> #[trigger] kb.kseq()[i].len() < 0x1_0000_0000_0000_0000)
            by {
            assert forall|i: int|
                0 <= i < kb.keys@.len() implies (#[trigger] kb.keys@[i])@.len() <= usize::MAX by {
                vstd::std_specs::vec::axiom_spec_len(&kb.keys@[i]);
            }
        }
        assert(forall|i: int|
            0 <= i < kb.vseq().len() ==> #[trigger] kb.vseq()[i].len() < 0x1_0000_0000_0000_0000)
            by {
            assert forall|i: int|
                0 <= i < kb.vals@.len() implies (#[trigger] kb.vals@[i])@.len() <= usize::MAX by {
                vstd::std_specs::vec::axiom_spec_len(&kb.vals@[i]);
            }
        }
        assert(entries_coded(b@));
    }
    Ok(kb)
}

/// Appending one entry extends the encoding by its two framed segments.
proof fn lemma_enc_push(ks: Seq<Seq<u8>>, vs: Seq<Seq<u8>>, k: Seq<u8>, v: Seq<u8>)
    requires
        ks.len() == vs.len(),
    ensures
        enc_entries(ks.push(k), vs.push(v)) == enc_entries(ks, vs) + enc_seg(k) + enc_seg(v),
    decreases ks.len(),
{
    broadcast use vstd::seq_lib::group_seq_properties;

    if ks.len() == 0 {
        assert(ks.push(k)[0] == k);
        assert(vs.push(v)[0] == v);
        assert(ks.push(k).drop_first() =~= Seq::<Seq<u8>>::empty());
        assert(vs.push(v).drop_first() =~= Seq::<Seq<u8>>::empty());
        assert(enc_entries(ks.push(k), vs.push(v)) =~= enc_entries(ks, vs) + enc_seg(k) + enc_seg(
            v,
        ));
    } else {
        lemma_enc_push(ks.drop_first(), vs.drop_first(), k, v);
        assert(ks.push(k)[0] == ks[0]);
        assert(vs.push(v)[0] == vs[0]);
        assert(ks.push(k).drop_first() =~= ks.drop_first().push(k));
        assert(vs.push(v).drop_first() =~= vs.drop_first().push(v));
        assert(enc_entries(ks.push(k), vs.push(v)) =~= enc_entries(ks, vs) + enc_seg(k) + enc_seg(
            v,
        ));
    }
}

/// The registry of live trie tips and the index of every committed root.
pub struct MptStore {
    pub(crate) meta: Mapx,
    pub(crate) header_set: Mapx,
}

impl MptStore {
    /// The tips registry prefix.
    pub closed spec fn meta_pfx(self) -> u64 {
        self.meta.pfx()
    }

    /// The history registry prefix.
    pub closed spec fn hdr_pfx(self) -> u64 {
        self.header_set.pfx()
    }

    /// The tips registry: backend key to backend handle bytes.
    pub closed spec fn meta_map(self, db: Db) -> Map<Seq<u8>, Seq<u8>> {
        self.meta.contents(db)
    }

    /// The history index: root to the backend that holds it.
    pub closed spec fn header_map(self, db: Db) -> Map<Seq<u8>, Seq<u8>> {
        self.header_set.contents(db)
    }

    /// Both registries are allocated, distinct, and no backend node uses
    /// either as its own data instance.
    pub closed spec fn wf(self, db: Db) -> bool {
        &&& self.meta.valid(db)
        &&& self.header_set.valid(db)
        &&& self.meta.pfx() != self.header_set.pfx()
        &&& forall|m: u64|
            m < db.nodes.len() ==> #[trigger] db.nodes[m as int].data != self.meta.pfx()
                && db.nodes[m as int].data != self.header_set.pfx()
    }

    /// An empty store: no tips, no history.
    pub fn new(db: &mut Db) -> (r: MptStore)
        requires
            old(db).wf(),
            old(db).insts.len() + 2 < u64::MAX,
        ensures
            final(db).wf(),
            r.wf(*final(db)),
            r.meta_map(*final(db)) == Map::<Seq<u8>, Seq<u8>>::empty(),
            r.header_map(*final(db)) == Map::<Seq<u8>, Seq<u8>>::empty(),
            final(db).nodes == old(db).nodes,
    {
        let meta = Mapx::new(db);
        let header_set = Mapx::new(db);
        let r = MptStore { meta, header_set };
        proof {
            assert forall|m: u64|
                m < db.nodes.len() implies #[trigger] db.nodes[m as int].data != r.meta.pfx()
                && db.nodes[m as int].data != r.header_set.pfx() by {
                assert(old(db).node_wf(m as int));
            }
        }
        r
    }

    /// A second handle onto the same registries. The two alias: writes
    /// through either are seen through both.
    pub fn shadow(&self) -> (r: MptStore)
        ensures
            r.meta_pfx() == self.meta_pfx(),
            r.hdr_pfx() == self.hdr_pfx(),
    {
        MptStore { meta: self.meta.shadow(), header_set: self.header_set.shadow() }
    }

    /// A fresh backend registered under `id`, reading through `parent`
    /// when one is given.
    pub fn new_backend(db: &mut Db, id: &Vec<u8>, parent: Option<&TrieBackend>) -> (r: Result<
        TrieBackend,
        Error,
    >)
        requires
            old(db).wf(),
            old(db).insts.len() < u64::MAX,
            old(db).nodes.len() < u64::MAX,
            parent is Some ==> parent.unwrap().valid(*old(db)),
        ensures
            final(db).wf(),
            match r {
                Ok(b) => {
                    &&& b.valid(*final(db))
                    &&& final(db).node(b.node_id()).parent == (match parent {
                        Some(p) => Some(p.node_id()),
                        None => None::<u64>,
                    })
                    &&& forall|root: Seq<u8>|
                        chain_first(*final(db), b.node_id(), root) == (match parent {
                            Some(p) => chain_first(*final(db), p.node_id(), root),
                            None => None::<Seq<u8>>,
                        })
                    &&& final(db).nodes.len() == old(db).nodes.len() + 1
                    &&& final(db).insts.len() == old(db).insts.len() + 1
                    &&& final(db).node(b.node_id()).data == old(db).insts.len()
                    &&& final(db).node(b.node_id()).id@ == id@
                    &&& final(db).node(b.node_id()).kid_nids@.len() == 0
                    &&& final(db).node(b.node_id()).kid_ids@.len() == 0
                    &&& final(db).data_of(b.node_id()) == Map::<Seq<u8>, Seq<u8>>::empty()
                    &&& (parent is Some ==> !old(db).kids(
                        parent.unwrap().node_id(),
                    ).contains_key(id@))
                    &&& (parent is Some ==> final(db).kids(parent.unwrap().node_id()) == old(
                        db,
                    ).kids(parent.unwrap().node_id()).insert(id@, b.node_id()))
                    &&& forall|m: u64|
                        m < old(db).nodes.len() && (parent is None || m
                            != parent.unwrap().node_id()) ==> final(db).nodes[m as int] == old(
                            db,
                        ).nodes[m as int]
                    &&& (parent is Some ==> final(db).node(parent.unwrap().node_id()).data == old(
                        db,
                    ).node(parent.unwrap().node_id()).data)
                    &&& forall|q: u64|
                        q < old(db).insts.len() ==> final(db).insts[q as int] == old(
                            db,
                        ).insts[q as int]
                },
                Err(e) => {
                    &&& e == Error::AlreadyExists
                    &&& parent is Some
                    &&& old(db).kids(parent.unwrap().node_id()).contains_key(id@)
                    &&& *final(db) == *old(db)
                },
            },
    {
        let pn = match parent {
            Some(p) => Some(p.nid),
            None => None,
        };
        let res = node_new(db, id, pn);
        match res {
            Ok(n) => {
                proof {
                    let fin = *db;
                    assert forall|root: Seq<u8>|
                        chain_first(fin, n, root) == (match parent {
                            Some(p) => chain_first(fin, p.node_id(), root),
                            None => None::<Seq<u8>>,
                        }) by {
                        assert(fin.data_of(n) == Map::<Seq<u8>, Seq<u8>>::empty());
                        assert(!fin.data_of(n).contains_key(root));
                    }
                }
                Ok(TrieBackend { nid: n })
            },
            Err(e) => Err(e),
        }
    }

    /// The backend a key currently names, when its handle bytes are sound.
    pub(crate) fn get_backend(&self, db: &Db, backend_key: &Vec<u8>) -> (r: Option<u64>)
        requires
            db.wf(),
            self.wf(*db),
        ensures
            match r {
                Some(n) => self.meta_map(*db).contains_key(backend_key@) && self.meta_map(
                    *db,
                )[backend_key@] == u64_bytes(n) && db.node_ok(n),
                None => !self.meta_map(*db).contains_key(backend_key@) || !(self.meta_map(
                    *db,
                )[backend_key@].len() == 8 && u64_unbytes(self.meta_map(*db)[backend_key@])
                    < db.nodes.len()),
            },
    {
        match self.meta.get(db, backend_key) {
            Some(v) => {
                if v.len() != 8 {
                    return None;
                }
                let n = u64_from_bytes(&v);
                if n < db.nodes.len() as u64 {
                    proof {
                        crate::bytes::lemma_u64_bytes_roundtrip(n);
                        crate::ende::lemma_bytes8_unbytes(v@);
                    }
                    Some(n)
                } else {
                    None
                }
            },
            None => None,
        }
    }

    /// The backend recorded for `root` in the history, when sound.
    pub(crate) fn get_header(&self, db: &Db, root: &Vec<u8>) -> (r: Option<u64>)
        requires
            db.wf(),
            self.wf(*db),
        ensures
            match r {
                Some(n) => self.header_map(*db).contains_key(root@) && self.header_map(
                    *db,
                )[root@] == u64_bytes(n) && db.node_ok(n),
                None => !self.header_map(*db).contains_key(root@) || !(self.header_map(
                    *db,
                )[root@].len() == 8 && u64_unbytes(self.header_map(*db)[root@]) < db.nodes.len()),
            },
    {
        match self.header_set.get(db, root) {
            Some(v) => {
                if v.len() != 8 {
                    return None;
                }
                let n = u64_from_bytes(&v);
                if n < db.nodes.len() as u64 {
                    proof {
                        crate::bytes::lemma_u64_bytes_roundtrip(n);
                        crate::ende::lemma_bytes8_unbytes(v@);
                    }
                    Some(n)
                } else {
                    None
                }
            },
            None => None,
        }
    }

    /// Registers `backend` under `backend_key` and opens a working trie
    /// on it, starting from the empty content. Refused when the key is
    /// already bound.
    pub fn trie_create(&self, db: &mut Db, backend_key: &Vec<u8>, backend: TrieBackend) -> (r:
        Result<MptOnce, Error>)
        requires
            old(db).wf(),
            self.wf(*old(db)),
            backend.valid(*old(db)),
        ensures
            final(db).wf(),
            self.wf(*final(db)),
            match r {
                Ok(m) => {
                    &&& !self.meta_map(*old(db)).contains_key(backend_key@)
                    &&& self.meta_map(*final(db)) == self.meta_map(*old(db)).insert(
                        backend_key@,
                        u64_bytes(backend.node_id()),
                    )
                    &&& self.header_map(*final(db)) == self.header_map(*old(db))
                    &&& m.backend_id() == backend.node_id()
                    &&& m.content_map() == Map::<Seq<u8>, Seq<u8>>::empty()
                    &&& m.root_bytes() == root_of(Seq::empty(), Seq::empty())
                    &&& backend_has(*final(db), m.backend_id(), m.root_bytes())
                    &&& m.valid(*final(db))
                    &&& m.header_pfx() == self.hdr_pfx()
                },
                Err(e) => {
                    &&& e == Error::AlreadyExists
                    &&& self.meta_map(*old(db)).contains_key(backend_key@)
                    &&& *final(db) == *old(db)
                },
            },
    {
        if self.meta.contains_key(db, backend_key) {
            return Err(Error::AlreadyExists);
        }
        let nb = u64_to_bytes(backend.nid);
        self.meta.insert(db, backend_key, &nb);
        let ghost mid = *db;
        proof {
            assert forall|m: u64|
                m < db.nodes.len() implies #[trigger] db.nodes[m as int].data != self.meta.pfx()
                && db.nodes[m as int].data != self.header_set.pfx() by {
                assert(old(db).nodes[m as int].data != self.meta.pfx());
            }
        }
        let content = KvBuf::new();
        let enc = encode_entries(&content);
        let root = keccak256(&enc);
        let writer = DagMap::from_nid(backend.nid);
        proof {
            assert(db.node_wf(backend.node_id() as int));
        }
        writer.insert(db, &root, &enc);
        proof {
            assert(self.meta.contents(*db) == self.meta.contents(mid));
            assert(self.header_set.contents(*db) == self.header_set.contents(mid));
            assert forall|m: u64|
                m < db.nodes.len() implies #[trigger] db.nodes[m as int].data != self.meta.pfx()
                && db.nodes[m as int].data != self.header_set.pfx() by {
                assert(mid.nodes[m as int].data != self.meta.pfx());
            }
        }
        Ok(
            MptOnce {
                backend: backend.nid,
                root,
                content,
                header_set: self.header_set.shadow(),
            },
        )
    }

    /// A sound tip binding under `backend_key` reaches `root` and its
    /// stored bytes are a valid entry coding.
    pub open spec fn tip_path_ok(self, db: Db, backend_key: Seq<u8>, root: Seq<u8>) -> bool {
        exists|n: u64|
            #![auto]
            db.node_ok(n) && self.meta_map(db).contains_key(backend_key) && self.meta_map(
                db,
            )[backend_key] == u64_bytes(n) && backend_has(db, n, root) && entries_coded(
                stored(db, n, root),
            )
    }

    /// A sound history binding for `root` reaches it and its stored bytes
    /// are a valid entry coding.
    pub open spec fn hist_path_ok(self, db: Db, root: Seq<u8>) -> bool {
        exists|n: u64|
            #![auto]
            db.node_ok(n) && self.header_map(db).contains_key(root) && self.header_map(db)[root]
                == u64_bytes(n) && backend_has(db, n, root) && entries_coded(stored(db, n, root))
    }

    /// Opens a working trie at `root` under `backend_key`. When the tip
    /// does not yield the root and `search_history` is set, the backend
    /// recorded for the root in the history is tried instead. Succeeds
    /// exactly when one of the two paths reaches the root with readable
    /// version bytes.
    pub fn trie_restore(&self, db: &Db, backend_key: &Vec<u8>, root: &Vec<u8>, search_history:
        bool) -> (r: Result<MptOnce, Error>)
        requires
            db.wf(),
            self.wf(*db),
        ensures
            match r {
                Ok(m) => {
                    &&& m.valid(*db)
                    &&& m.root_bytes() == root@
                    &&& m.header_pfx() == self.hdr_pfx()
                    &&& backend_has(*db, m.backend_id(), root@)
                    &&& enc_entries(m.content_cols().0, m.content_cols().1) == stored(
                        *db,
                        m.backend_id(),
                        root@,
                    )
                    &&& (self.tip_path_ok(*db, backend_key@, root@) || (search_history
                        && self.hist_path_ok(*db, root@)))
                },
                Err(e) => {
                    &&& e == Error::NotFound
                    &&& !self.tip_path_ok(*db, backend_key@, root@)
                    &&& (search_history ==> !self.hist_path_ok(*db, root@))
                },
            },
    {
        let tip = self.get_backend(db, backend_key);
        match tip {
            Some(n) => {
                match raw_chain_get(db, n, root) {
                    Some(encv) => {
                        match decode_entries(&encv) {
                            Ok(content) => {
                                return Ok(
                                    MptOnce {
                                        backend: n,
                                        root: bytes_clone(root),
                                        content,
                                        header_set: self.header_set.shadow(),
                                    },
                                );
                            },
                            Err(_) => {
                                proof {
                                    lemma_not_tip_path(
                                        *db,
                                        self.meta_map(*db),
                                        backend_key@,
                                        root@,
                                        Some(n),
                                    );
                                }
                            },
                        }
                    },
                    None => {
                        proof {
                            lemma_not_tip_path(
                                *db,
                                self.meta_map(*db),
                                backend_key@,
                                root@,
                                Some(n),
                            );
                        }
                    },
                }
            },
            None => {
                proof {
                    lemma_not_tip_path(*db, self.meta_map(*db), backend_key@, root@, None);
                }
            },
        }
        if search_history {
            match self.get_header(db, root) {
                Some(n) => {
                    match raw_chain_get(db, n, root) {
                        Some(encv) => {
                            match decode_entries(&encv) {
                                Ok(content) => {
                                    return Ok(
                                        MptOnce {
                                            backend: n,
                                            root: bytes_clone(root),
                                            content,
                                            header_set: self.header_set.shadow(),
                                        },
                                    );
                                },
                                Err(_) => {
                                    proof {
                                        lemma_not_tip_path(
                                            *db,
                                            self.header_map(*db),
                                            root@,
                                            root@,
                                            Some(n),
                                        );
                                    }
                                },
                            }
                        },
                        None => {
                            proof {
                                lemma_not_tip_path(
                                    *db,
                                    self.header_map(*db),
                                    root@,
                                    root@,
                                    Some(n),
                                );
                            }
                        },
                    }
                },
                None => {
                    proof {
                        lemma_not_tip_path(*db, self.header_map(*db), root@, root@, None);
                    }
                },
            }
        }
        Err(Error::NotFound)
    }

    /// Points `backend_key` at the backend that committed `root`,
    /// declaring a new mainline tip.
    pub fn trie_swap_head(&self, db: &mut Db, backend_key: &Vec<u8>, root: &Vec<u8>) -> (r: Result<
        (),
        Error,
    >)
        requires
            old(db).wf(),
            self.wf(*old(db)),
        ensures
            final(db).wf(),
            self.wf(*final(db)),
            match r {
                Ok(_) => {
                    &&& self.header_map(*old(db)).contains_key(root@)
                    &&& self.meta_map(*final(db)) == self.meta_map(*old(db)).insert(
                        backend_key@,
                        self.header_map(*old(db))[root@],
                    )
                    &&& self.header_map(*final(db)) == self.header_map(*old(db))
                },
                Err(e) => {
                    &&& e == Error::NotFound
                    &&& !self.header_map(*old(db)).contains_key(root@)
                    &&& *final(db) == *old(db)
                },
            },
    {
        let b = match self.header_set.get(db, root) {
            Some(v) => v,
            None => {
                return Err(Error::NotFound);
            },
        };
        self.meta.insert(db, backend_key, &b);
        proof {
            assert forall|m: u64|
                m < db.nodes.len() implies #[trigger] db.nodes[m as int].data != self.meta.pfx()
                && db.nodes[m as int].data != self.header_set.pfx() by {
                assert(old(db).nodes[m as int].data != self.meta.pfx());
            }
        }
        Ok(())
    }

    /// Unregisters the tip under `backend_key`; history stays.
    pub fn trie_remove(&self, db: &mut Db, backend_key: &Vec<u8>)
        requires
            old(db).wf(),
            self.wf(*old(db)),
        ensures
            final(db).wf(),
            self.wf(*final(db)),
            self.meta_map(*final(db)) == self.meta_map(*old(db)).remove(backend_key@),
            self.header_map(*final(db)) == self.header_map(*old(db)),
    {
        self.meta.remove(db, backend_key);
        proof {
            assert forall|m: u64|
                m < db.nodes.len() implies #[trigger] db.nodes[m as int].data != self.meta.pfx()
                && db.nodes[m as int].data != self.header_set.pfx() by {
                assert(old(db).nodes[m as int].data != self.meta.pfx());
            }
        }
    }

    /// Unregisters the tip under `backend_key` and destroys its backend
    /// chain downward: versions held only below that tip become
    /// unreachable, while ancestors and history entries they still hold
    /// survive.
    pub fn trie_destroy(&self, db: &mut Db, backend_key: &Vec<u8>)
        requires
            old(db).wf(),
            self.wf(*old(db)),
        ensures
            final(db).wf(),
            self.wf(*final(db)),
            self.meta_map(*final(db)) == self.meta_map(*old(db)).remove(backend_key@),
            self.header_map(*final(db)) == self.header_map(*old(db)),
    {
        let b = self.get_backend(db, backend_key);
        self.meta.remove(db, backend_key);
        let ghost mid = *db;
        proof {
            assert forall|m: u64|
                m < db.nodes.len() implies #[trigger] db.nodes[m as int].data != self.meta.pfx()
                && db.nodes[m as int].data != self.header_set.pfx() by {
                assert(old(db).nodes[m as int].data != self.meta.pfx());
            }
        }
        match b {
            Some(n) => {
                raze_node(db, n, true);
                proof {
                    lemma_pfx_not_subtree_data(mid, n, self.meta.pfx());
                    lemma_pfx_not_subtree_data(mid, n, self.header_set.pfx());
                    assert(db.insts[self.meta.pfx() as int] == mid.insts[self.meta.pfx() as int]);
                    assert(db.insts[self.header_set.pfx() as int] == mid.insts[self.header_set.pfx() as int]);
                    assert forall|m: u64|
                        m < db.nodes.len() implies #[trigger] db.nodes[m as int].data
                        != self.meta.pfx() && db.nodes[m as int].data != self.header_set.pfx() by {
                        assert(mid.nodes[m as int].data != self.meta.pfx());
                    }
                }
            },
            None => {},
        }
    }

    /// Keeps `root` and what still hangs below its backend, collapses the
    /// chain above it, repoints `backend_key` and the history entry for
    /// `root` at the collapsed backend, and drops from the history every
    /// root whose backend no longer holds it. Without `keep_descendants`
    /// the collapsed backend's children are destroyed first.
    pub fn trie_prune(&self, db: &mut Db, backend_key: &Vec<u8>, root: &Vec<u8>, keep_descendants:
        bool) -> (r: Result<(), Error>)
        requires
            old(db).wf(),
            self.wf(*old(db)),
        ensures
            final(db).wf(),
            self.wf(*final(db)),
            match r {
                Ok(_) => exists|gg: u64|
                    #![auto]
                    final(db).node_ok(gg) && self.header_map(*final(db)).contains_key(root@)
                        && self.header_map(*final(db))[root@] == u64_bytes(gg) && self.meta_map(
                        *final(db),
                    ).contains_key(backend_key@) && self.meta_map(*final(db))[backend_key@]
                        == u64_bytes(gg) && backend_has(*final(db), gg, root@),
                Err(e) => {
                    &&& e == Error::NotFound
                    &&& !(exists|n: u64|
                        old(db).node_ok(n) && self.header_map(*old(db)).contains_key(root@)
                            && self.header_map(*old(db))[root@] == u64_bytes(n) && backend_has(
                            *old(db),
                            n,
                            root@,
                        ))
                    &&& *final(db) == *old(db)
                },
            },
    {
        let hb = match self.get_header(db, root) {
            Some(n) => n,
            None => {
                proof {
                    lemma_no_path(*db, self.header_map(*db), root@, root@, None);
                }
                return Err(Error::NotFound);
            },
        };
        match raw_chain_get(db, hb, root) {
            Some(_) => {},
            None => {
                proof {
                    lemma_no_path(*db, self.header_map(*db), root@, root@, Some(hb));
                }
                return Err(Error::NotFound);
            },
        }
        let g = collapse_mainline(db, hb);
        let ghost mid = *db;
        proof {
            lemma_store_regs_after_nodes_only(*old(db), *db, *self);
            assert(chain_first(mid, g, root@) == chain_first(*old(db), hb, root@));
            assert(chain_first(mid, g, root@) is Some);
        }
        if !keep_descendants {
            crate::dag::raze_kids(db, g, true);
            proof {
                lemma_kids_pfx_not_data(mid, g, self.meta.pfx());
                lemma_kids_pfx_not_data(mid, g, self.header_set.pfx());
                assert(db.insts[self.meta.pfx() as int] == mid.insts[self.meta.pfx() as int]);
                assert(db.insts[self.header_set.pfx() as int] == mid.insts[self.header_set.pfx() as int]);
                assert forall|m: u64|
                    m < db.nodes.len() implies #[trigger] db.nodes[m as int].data
                    != self.meta.pfx() && db.nodes[m as int].data != self.header_set.pfx() by {
                    assert(mid.nodes[m as int].data != self.meta.pfx());
                }
                // the root's own entries are not below any of its children
                assert(mid.node_wf(g as int));
                assert(mid.node(g).data < mid.insts.len());
                assert(db.insts[mid.node(g).data as int] == mid.insts[mid.node(g).data as int])
                    by {
                    if crate::dag::kids_data_prefix(mid, g, mid.node(g).data) {
                        let m2 = choose|m2: u64|
                            #[trigger] crate::dag::kids_member(mid, g, m2) && mid.node(m2).data
                                == mid.node(g).data;
                        crate::dag::lemma_kids_floor_pub(mid, g, m2);
                        assert(mid.nodes[m2 as int].data != mid.nodes[g as int].data);
                    }
                }
                assert(chain_first(*db, g, root@) == chain_first(mid, g, root@)) by {
                    assert(db.node(g).parent is None);
                    assert(db.node(g).data == mid.node(g).data);
                    assert(db.at(db.node(g).data) == mid.at(mid.node(g).data));
                }
            }
        }
        let gb = u64_to_bytes(g);
        let ghost mid2 = *db;
        self.header_set.insert(db, root, &gb);
        self.meta.insert(db, backend_key, &gb);
        proof {
            assert forall|m: u64|
                m < db.nodes.len() implies #[trigger] db.nodes[m as int].data != self.meta.pfx()
                && db.nodes[m as int].data != self.header_set.pfx() by {
                assert(mid2.nodes[m as int].data != self.meta.pfx());
            }
            assert(db.node(g) == mid2.node(g));
            assert(db.at(db.node(g).data) == mid2.at(mid2.node(g).data)) by {
                assert(mid2.node_wf(g as int));
                assert(mid2.nodes[g as int].data != self.meta.pfx());
            }
            assert(chain_first(*db, g, root@) == chain_first(mid2, g, root@)) by {
                assert(db.node(g).parent is None);
            }
        }
        // walk the history: a root other than the kept one is dropped when
        // its recorded backend is gone, has been cleared, or is the
        // collapsed backend itself, which holds it only as a folded copy
        let roots = self.header_set.entries(db);
        let mut i: usize = 0;
        while i < roots.len()
            invariant
                db.wf(),
                self.wf(*db),
                i <= roots@.len(),
                self.meta_map(*db).contains_key(backend_key@),
                self.meta_map(*db)[backend_key@] == u64_bytes(g),
                self.header_map(*db).contains_key(root@),
                self.header_map(*db)[root@] == u64_bytes(g),
                db.node_ok(g),
                db.node(g).parent is None,
                chain_first(*db, g, root@) is Some,
            decreases roots@.len() - i,
        {
            let rk = bytes_clone(&roots[i].0);
            if !bytes_eq(&rk, root) {
                let keepn = match self.get_header(db, &rk) {
                    Some(n) => {
                        if n == g {
                            false
                        } else {
                            proof {
                                assert(db.node_wf(n as int));
                            }
                            let bdata = Mapx::from_raw(db.nodes[n as usize].data);
                            !bdata.is_empty(db)
                        }
                    },
                    None => false,
                };
                if !keepn {
                    let ghost mid3 = *db;
                    self.header_set.remove(db, &rk);
                    proof {
                        assert forall|m: u64|
                            m < db.nodes.len() implies #[trigger] db.nodes[m as int].data
                            != self.meta.pfx() && db.nodes[m as int].data
                            != self.header_set.pfx() by {
                            assert(mid3.nodes[m as int].data != self.meta.pfx());
                        }
                    }
                    proof {
                        assert(chain_first(*db, g, root@) == chain_first(mid3, g, root@)) by {
                            assert(db.node(g) == mid3.node(g));
                            assert(db.at(db.node(g).data) == mid3.at(mid3.node(g).data)) by {
                                assert(mid3.node_wf(g as int));
                                assert(mid3.nodes[g as int].data != self.header_set.pfx());
                            }
                        }
                    }
                    let ghost mid4 = *db;
                    let gdata = Mapx::from_raw(db.nodes[g as usize].data);
                    proof {
                        assert(db.node_wf(g as int));
                    }
                    gdata.remove(db, &rk);
                    proof {
                        assert(self.meta.contents(*db) == self.meta.contents(mid4));
                        assert(self.header_set.contents(*db) == self.header_set.contents(mid4));
                        assert forall|m: u64|
                            m < db.nodes.len() implies #[trigger] db.nodes[m as int].data
                            != self.meta.pfx() && db.nodes[m as int].data
                            != self.header_set.pfx() by {
                            assert(mid4.nodes[m as int].data != self.meta.pfx());
                        }
                        assert(chain_first(*db, g, root@) is Some) by {
                            assert(db.node(g) == mid4.node(g));
                            assert(db.at(db.node(g).data) == mid4.at(
                                mid4.node(g).data,
                            ).remove(rk@));
                            assert(mid4.data_of(g).contains_key(root@));
                            assert(db.data_of(g).contains_key(root@));
                        }
                    }
                }
            }
            i += 1;
        }
        Ok(())
    }
}

/// A chain read is stable when only instances off the chain's data were
/// rewritten.
proof fn lemma_chain_stable_after_inst(pre: Db, post: Db, n: u64, k: Seq<u8>)
    requires
        pre.wf(),
        pre.node_ok(n),
        post.nodes == pre.nodes,
        post.insts.len() == pre.insts.len(),
        forall|m: u64|
            m <= n ==> post.at(#[trigger] pre.node(m).data) == pre.at(pre.node(m).data),
    ensures
        chain_first(post, n, k) == chain_first(pre, n, k),
{
    assert forall|m: u64| m <= n implies #[trigger] post.node(m).parent == pre.node(m).parent by {}
    assert forall|m: u64| m <= n implies #[trigger] post.node(m).data == pre.node(m).data by {}
    crate::dag::lemma_chain_first_stable(pre, post, n, k);
}

/// When the registry's binding for a key cannot reach `root`, no sound
/// binding reaching `root` exists for that key at all.
proof fn lemma_no_path(db: Db, reg: Map<Seq<u8>, Seq<u8>>, key: Seq<u8>, root: Seq<u8>, tip: Option<
    u64,
>)
    requires
        match tip {
            Some(n) => reg.contains_key(key) && reg[key] == u64_bytes(n) && !backend_has(
                db,
                n,
                root,
            ),
            None => !reg.contains_key(key) || !(reg[key].len() == 8 && u64_unbytes(reg[key])
                < db.nodes.len()),
        },
    ensures
        !(exists|n2: u64|
            db.node_ok(n2) && reg.contains_key(key) && reg[key] == u64_bytes(n2) && backend_has(
                db,
                n2,
                root,
            )),
{
    if exists|n2: u64|
        db.node_ok(n2) && reg.contains_key(key) && reg[key] == u64_bytes(n2) && backend_has(
            db,
            n2,
            root,
        ) {
        let n2 = choose|n2: u64|
            db.node_ok(n2) && reg.contains_key(key) && reg[key] == u64_bytes(n2) && backend_has(
                db,
                n2,
                root,
            );
        crate::bytes::lemma_u64_bytes_roundtrip(n2);
        match tip {
            Some(n) => {
                crate::bytes::lemma_u64_bytes_roundtrip(n);
                assert(u64_unbytes(u64_bytes(n)) == u64_unbytes(u64_bytes(n2)));
                assert(n == n2);
            },
            None => {
                assert(reg[key].len() == 8);
                assert(u64_unbytes(reg[key]) == n2);
            },
        }
    }
}

/// When the registry's binding for a key cannot yield readable version
/// bytes for `root`, no sound binding doing so exists for that key.
proof fn lemma_not_tip_path(db: Db, reg: Map<Seq<u8>, Seq<u8>>, key: Seq<u8>, root: Seq<u8>, tip:
    Option<u64>)
    requires
        match tip {
            Some(n) => reg.contains_key(key) && reg[key] == u64_bytes(n) && (!backend_has(
                db,
                n,
                root,
            ) || !entries_coded(stored(db, n, root))),
            None => !reg.contains_key(key) || !(reg[key].len() == 8 && u64_unbytes(reg[key])
                < db.nodes.len()),
        },
    ensures
        !(exists|n2: u64|
            #![auto]
            db.node_ok(n2) && reg.contains_key(key) && reg[key] == u64_bytes(n2) && backend_has(
                db,
                n2,
                root,
            ) && entries_coded(stored(db, n2, root))),
{
    if exists|n2: u64|
        #![auto]
        db.node_ok(n2) && reg.contains_key(key) && reg[key] == u64_bytes(n2) && backend_has(
            db,
            n2,
            root,
        ) && entries_coded(stored(db, n2, root)) {
        let n2 = choose|n2: u64|
            #![auto]
            db.node_ok(n2) && reg.contains_key(key) && reg[key] == u64_bytes(n2) && backend_has(
                db,
                n2,
                root,
            ) && entries_coded(stored(db, n2, root));
        crate::bytes::lemma_u64_bytes_roundtrip(n2);
        match tip {
            Some(n) => {
                crate::bytes::lemma_u64_bytes_roundtrip(n);
                assert(u64_unbytes(u64_bytes(n)) == u64_unbytes(u64_bytes(n2)));
                assert(n == n2);
            },
            None => {
                assert(reg[key].len() == 8);
                assert(u64_unbytes(reg[key]) == n2);
            },
        }
    }
}

/// An instance that is no node's data lies outside every kid set's data.
proof fn lemma_kids_pfx_not_data(dbx: Db, n: u64, pfx: u64)
    requires
        dbx.wf(),
        dbx.node_ok(n),
        forall|m: u64| m < dbx.nodes.len() ==> #[trigger] dbx.nodes[m as int].data != pfx,
    ensures
        !crate::dag::kids_data_prefix(dbx, n, pfx),
{
    if crate::dag::kids_data_prefix(dbx, n, pfx) {
        let m = choose|m: u64|
            #[trigger] crate::dag::kids_member(dbx, n, m) && dbx.node(m).data == pfx;
        crate::dag::lemma_kids_floor_pub(dbx, n, m);
    }
}

/// An instance that is no node's data lies outside every subtree's data.
proof fn lemma_pfx_not_subtree_data(dbx: Db, n: u64, pfx: u64)
    requires
        dbx.wf(),
        dbx.node_ok(n),
        forall|m: u64| m < dbx.nodes.len() ==> #[trigger] dbx.nodes[m as int].data != pfx,
    ensures
        !crate::dag::subtree_data_prefix(dbx, n, pfx),
{
    if crate::dag::subtree_data_prefix(dbx, n, pfx) {
        let m = choose|m: u64|
            #[trigger] crate::dag::subtree(dbx, n).contains(m) && dbx.node(m).data == pfx;
        crate::dag::lemma_subtree_floor(dbx, n, m);
    }
}

/// After a collapse, registries not used as node data are untouched.
proof fn lemma_store_regs_after_nodes_only(pre: Db, post: Db, store: MptStore)
    requires
        pre.wf(),
        store.wf(pre),
        post.insts.len() == pre.insts.len(),
        post.nodes.len() == pre.nodes.len(),
        forall|m: u64|
            m < pre.nodes.len() ==> post.nodes[m as int].data == pre.nodes[m as int].data,
        forall|p: u64|
            p < pre.insts.len() && post.insts[p as int] != pre.insts[p as int] ==> exists|m: u64|
                m < pre.nodes.len() && pre.nodes[m as int].data == p,
    ensures
        store.wf(post),
        store.meta_map(post) == store.meta_map(pre),
        store.header_map(post) == store.header_map(pre),
{
    assert(post.insts[store.meta.pfx() as int] == pre.insts[store.meta.pfx() as int]) by {
        if post.insts[store.meta.pfx() as int] != pre.insts[store.meta.pfx() as int] {
            let m = choose|m: u64|
                m < pre.nodes.len() && pre.nodes[m as int].data == store.meta.pfx();
        }
    }
    assert(post.insts[store.header_set.pfx() as int] == pre.insts[store.header_set.pfx() as int])
        by {
        if post.insts[store.header_set.pfx() as int] != pre.insts[store.header_set.pfx() as int] {
            let m = choose|m: u64|
                m < pre.nodes.len() && pre.nodes[m as int].data == store.header_set.pfx();
        }
    }
    assert forall|m: u64|
        m < post.nodes.len() implies #[trigger] post.nodes[m as int].data != store.meta.pfx()
        && post.nodes[m as int].data != store.header_set.pfx() by {
        assert(pre.nodes[m as int].data != store.meta.pfx());
    }
}

} // verus!
verus! {

/// An owned working trie: a backend position, the root it was opened at,
/// and the working content in memory.
pub struct MptOnce {
    pub(crate) backend: u64,
    pub(crate) root: Vec<u8>,
    pub(crate) content: KvBuf,
    pub(crate) header_set: Mapx,
}

impl MptOnce {
    /// The backend node this handle writes through.
    pub closed spec fn backend_id(self) -> u64 {
        self.backend
    }

    /// The history registry this handle reports new roots to.
    pub closed spec fn header_pfx(self) -> u64 {
        self.header_set.pfx()
    }

    /// The working content as a map.
    pub closed spec fn content_map(self) -> Map<Seq<u8>, Seq<u8>> {
        self.content@
    }

    /// The working content's columns.
    pub closed spec fn content_cols(self) -> (Seq<Seq<u8>>, Seq<Seq<u8>>) {
        (self.content.kseq(), self.content.vseq())
    }

    /// The root this handle was opened at or last committed.
    pub closed spec fn root_bytes(self) -> Seq<u8> {
        self.root@
    }

    /// The handle's positions are allocated and the content sound.
    pub open spec fn valid(self, db: Db) -> bool {
        &&& db.node_ok(self.backend_id())
        &&& db.inst_ok(self.header_pfx())
        &&& self.content_ok()
    }

    /// The working content's columns are well-formed.
    pub closed spec fn content_ok(self) -> bool {
        self.content.wf()
    }

    /// Reads `key` from the working content.
    pub fn get(&self, db: &Db, key: &Vec<u8>) -> (r: Result<Option<Vec<u8>>, Error>)
        requires
            self.content_ok(),
        ensures
            match r {
                Ok(Some(v)) => self.content_map().contains_key(key@) && v@
                    == self.content_map()[key@],
                Ok(None) => !self.content_map().contains_key(key@),
                Err(_) => false,
            },
    {
        Ok(self.content.get(key))
    }

    /// Whether `key` is bound in the working content.
    pub fn contains(&self, db: &Db, key: &Vec<u8>) -> (r: Result<bool, Error>)
        requires
            self.content_ok(),
        ensures
            r matches Ok(b) && b == self.content_map().contains_key(key@),
    {
        Ok(self.content.has(key))
    }

    /// Binds `key` in the working content.
    pub fn insert(&mut self, db: &Db, key: &Vec<u8>, value: &Vec<u8>) -> (r: Result<(), Error>)
        requires
            old(self).content_ok(),
        ensures
            r is Ok,
            final(self).content_ok(),
            final(self).content_map() == old(self).content_map().insert(key@, value@),
            final(self).backend_id() == old(self).backend_id(),
            final(self).header_pfx() == old(self).header_pfx(),
            final(self).root_bytes() == old(self).root_bytes(),
    {
        self.content.set(bytes_clone(key), bytes_clone(value));
        Ok(())
    }

    /// Unbinds `key` in the working content.
    pub fn remove(&mut self, db: &Db, key: &Vec<u8>) -> (r: Result<(), Error>)
        requires
            old(self).content_ok(),
        ensures
            r is Ok,
            final(self).content_ok(),
            final(self).content_map() == old(self).content_map().remove(key@),
            final(self).backend_id() == old(self).backend_id(),
            final(self).header_pfx() == old(self).header_pfx(),
            final(self).root_bytes() == old(self).root_bytes(),
    {
        self.content.del(key);
        Ok(())
    }

    /// Drops every binding from the working content.
    pub fn clear(&mut self, db: &Db) -> (r: Result<(), Error>)
        requires
            old(self).content_ok(),
        ensures
            r is Ok,
            final(self).content_ok(),
            final(self).content_map() == Map::<Seq<u8>, Seq<u8>>::empty(),
            final(self).backend_id() == old(self).backend_id(),
            final(self).header_pfx() == old(self).header_pfx(),
            final(self).root_bytes() == old(self).root_bytes(),
    {
        self.content.clear();
        Ok(())
    }

    /// Whether the working content holds nothing.
    pub fn is_empty(&self, db: &Db) -> (r: bool)
        requires
            self.content_ok(),
        ensures
            r == (self.content_map().dom().len() == 0),
    {
        proof {
            self.content.lemma_size();
        }
        self.content.num() == 0
    }

    /// The root this handle stands at.
    pub fn root(&self) -> (r: Vec<u8>)
        ensures
            r@ == self.root_bytes(),
    {
        bytes_clone(&self.root)
    }

    /// Commits the working content: its root is computed and refused when
    /// the history already holds it (or the backend already carries a
    /// like-named child). Otherwise the content is stored under the root
    /// in the backend current at commit time, the root is registered in
    /// the history as produced by that backend, and the handle moves onto
    /// a fresh child backend named by the new root. Every root the old
    /// chain held stays readable through the new one.
    pub fn commit(&mut self, db: &mut Db) -> (r: Result<Vec<u8>, Error>)
        requires
            old(db).wf(),
            old(self).valid(*old(db)),
            old(db).insts.len() < u64::MAX,
            old(db).nodes.len() < u64::MAX,
            forall|m: u64|
                m < old(db).nodes.len() ==> #[trigger] old(db).nodes[m as int].data != old(
                    self,
                ).header_pfx(),
        ensures
            final(db).wf(),
            ({
                let newroot = root_of(old(self).content_cols().0, old(self).content_cols().1);
                let enc = enc_entries(old(self).content_cols().0, old(self).content_cols().1);
                match r {
                    Ok(root) => {
                        &&& !old(db).at(old(self).header_pfx()).contains_key(newroot)
                        &&& !old(db).kids(old(self).backend_id()).contains_key(newroot)
                        &&& root@ == newroot
                        &&& final(self).root_bytes() == newroot
                        // the root is registered against the backend that
                        // was current at commit time
                        &&& final(db).at(old(self).header_pfx()) == old(db).at(
                            old(self).header_pfx(),
                        ).insert(newroot, u64_bytes(old(self).backend_id()))
                        &&& backend_has(*final(db), old(self).backend_id(), newroot)
                        &&& stored(*final(db), old(self).backend_id(), newroot) == enc
                        // the handle moves onto a fresh child named by the
                        // new root, whose parent is the old backend
                        &&& final(self).backend_id() != old(self).backend_id()
                        &&& final(db).node(final(self).backend_id()).parent == Some(
                            old(self).backend_id(),
                        )
                        &&& final(db).node(final(self).backend_id()).id@ == newroot
                        &&& final(db).kids(old(self).backend_id()) == old(db).kids(
                            old(self).backend_id(),
                        ).insert(newroot, final(self).backend_id())
                        // everything the old chain held, the new one still
                        // reads, plus the new version
                        &&& forall|rt: Seq<u8>|
                            chain_first(*final(db), final(self).backend_id(), rt) == (if rt
                                == newroot {
                                Some(enc)
                            } else {
                                chain_first(*old(db), old(self).backend_id(), rt)
                            })
                        &&& final(self).valid(*final(db))
                        &&& final(self).content_map() == old(self).content_map()
                        &&& final(self).header_pfx() == old(self).header_pfx()
                        &&& ({
                            let hp = final(self).header_pfx();
                            forall|m: u64|
                                m < final(db).nodes.len()
                                    ==> #[trigger] final(db).nodes[m as int].data != hp
                        })
                    },
                    Err(e) => {
                        &&& e == Error::AlreadyExists
                        &&& (old(db).at(old(self).header_pfx()).contains_key(newroot) || old(
                            db,
                        ).kids(old(self).backend_id()).contains_key(newroot))
                        &&& *final(db) == *old(db)
                        &&& *final(self) == *old(self)
                    },
                }
            }),
    {
        let enc = encode_entries(&self.content);
        let root = keccak256(&enc);
        let hdr = Mapx::from_raw(self.header_set_prefix_exec());
        if hdr.contains_key(db, &root) {
            return Err(Error::AlreadyExists);
        }
        if crate::dag::has_kid(db, self.backend, &root) {
            return Err(Error::AlreadyExists);
        }
        // store the snapshot in the backend current at commit time
        let writer = DagMap::from_nid(self.backend);
        proof {
            assert(db.node_wf(self.backend_id() as int));
        }
        writer.insert(db, &root, &enc);
        let ghost mid1 = *db;
        proof {
            assert(db.at(old(self).header_pfx()) == old(db).at(old(self).header_pfx())) by {
                assert(old(self).header_pfx() < old(db).insts.len());
                assert(old(db).nodes[old(self).backend_id() as int].data != old(
                    self,
                ).header_pfx());
            }
        }
        // register it in the history against that backend
        let nb = u64_to_bytes(self.backend);
        hdr.insert(db, &root, &nb);
        let ghost mid2 = *db;
        proof {
            assert forall|m: u64|
                m <= old(self).backend_id() implies mid2.at(#[trigger] mid1.node(m).data)
                == mid1.at(mid1.node(m).data) by {
                assert(mid1.node_wf(m as int));
                assert(old(db).nodes[m as int].data != old(self).header_pfx());
            }
            assert(chain_first(mid2, old(self).backend_id(), root@) == chain_first(
                mid1,
                old(self).backend_id(),
                root@,
            )) by {
                lemma_chain_stable_after_inst(mid1, mid2, old(self).backend_id(), root@);
            }
            assert forall|rt: Seq<u8>|
                rt != root@ implies chain_first(mid2, old(self).backend_id(), rt) == chain_first(
                *old(db),
                old(self).backend_id(),
                rt,
            ) by {
                assert(chain_first(mid1, old(self).backend_id(), rt) == chain_first(
                    *old(db),
                    old(self).backend_id(),
                    rt,
                )) by {
                    assert(writer.first(mid1, rt) == writer.first(*old(db), rt));
                }
                lemma_chain_stable_after_inst(mid1, mid2, old(self).backend_id(), rt);
            }
            assert forall|m: u64|
                m < db.nodes.len() implies #[trigger] db.nodes[m as int].data != old(
                self,
            ).header_pfx() by {
                assert(old(db).nodes[m as int].data != old(self).header_pfx());
            }
        }
        // move onto a fresh child backend named by the new root
        let child = match node_new(db, &root, Some(self.backend)) {
            Ok(n) => n,
            Err(_) => {
                proof {
                    assert(false);
                }
                return Err(Error::AlreadyExists);
            },
        };
        proof {
            assert(db.at(old(self).header_pfx()) == mid2.at(old(self).header_pfx())) by {
                assert(old(self).header_pfx() < mid2.insts.len());
            }
            // the child reads its parent's chain for every root, and the
            // new version at the new root
            assert forall|rt: Seq<u8>|
                chain_first(*db, child, rt) == (if rt == root@ {
                    Some(enc@)
                } else {
                    chain_first(*old(db), old(self).backend_id(), rt)
                }) by {
                assert(db.data_of(child) == Map::<Seq<u8>, Seq<u8>>::empty());
                assert(!db.data_of(child).contains_key(rt));
                assert(chain_first(*db, child, rt) == chain_first(
                    *db,
                    old(self).backend_id(),
                    rt,
                ));
                assert(chain_first(*db, old(self).backend_id(), rt) == chain_first(
                    mid2,
                    old(self).backend_id(),
                    rt,
                )) by {
                    assert forall|m: u64|
                        m <= old(self).backend_id() implies #[trigger] db.node(m).parent
                        == mid2.node(m).parent by {}
                    assert forall|m: u64|
                        m <= old(self).backend_id() implies #[trigger] db.node(m).data
                        == mid2.node(m).data by {}
                    assert forall|m: u64|
                        m <= old(self).backend_id() implies db.at(#[trigger] mid2.node(m).data)
                        == mid2.at(mid2.node(m).data) by {
                        assert(mid2.node_wf(m as int));
                    }
                    crate::dag::lemma_chain_first_stable(
                        mid2,
                        *db,
                        old(self).backend_id(),
                        rt,
                    );
                }
            }
            assert forall|m: u64|
                m < db.nodes.len() implies #[trigger] db.nodes[m as int].data != old(
                self,
            ).header_pfx() by {
                if m < old(db).nodes.len() {
                    assert(old(db).nodes[m as int].data != old(self).header_pfx());
                }
            }
            // the version stays readable at the backend that produced it
            assert(chain_first(*db, old(self).backend_id(), root@) == chain_first(
                mid2,
                old(self).backend_id(),
                root@,
            )) by {
                assert forall|m: u64|
                    m <= old(self).backend_id() implies #[trigger] db.node(m).parent == mid2.node(
                    m,
                ).parent by {}
                assert forall|m: u64|
                    m <= old(self).backend_id() implies #[trigger] db.node(m).data == mid2.node(
                    m,
                ).data by {}
                assert forall|m: u64|
                    m <= old(self).backend_id() implies db.at(#[trigger] mid2.node(m).data)
                    == mid2.at(mid2.node(m).data) by {
                    assert(mid2.node_wf(m as int));
                }
                crate::dag::lemma_chain_first_stable(mid2, *db, old(self).backend_id(), root@);
            }
            assert(chain_first(*db, old(self).backend_id(), root@) == Some(enc@));
        }
        self.backend = child;
        self.root = root;
        let out = bytes_clone(&self.root);
        Ok(out)
    }

    /// The history prefix, for the crate's own plumbing.
    fn header_set_prefix_exec(&self) -> (r: u64)
        ensures
            r == self.header_pfx(),
    {
        self.header_set.raw_pfx()
    }

    /// A read-only view pinned to `root`, as long as the backend chain
    /// still holds that root.
    pub fn ro_handle(&self, db: &Db, root: &Vec<u8>) -> (r: Result<MptRo, Error>)
        requires
            db.wf(),
            self.valid(*db),
        ensures
            match r {
                Ok(m) => {
                    &&& backend_has(*db, self.backend_id(), root@)
                    &&& entries_coded(stored(*db, self.backend_id(), root@))
                    &&& m.root_bytes() == root@
                    &&& m.content_ok()
                    &&& enc_entries(m.content_cols().0, m.content_cols().1) == stored(
                        *db,
                        self.backend_id(),
                        root@,
                    )
                },
                Err(e) => (e == Error::NotFound && !backend_has(*db, self.backend_id(), root@))
                    || (e == Error::ShapeMismatch && backend_has(*db, self.backend_id(), root@)
                    && !entries_coded(stored(*db, self.backend_id(), root@))),
            },
    {
        let encv = match raw_chain_get(db, self.backend, root) {
            Some(v) => v,
            None => {
                return Err(Error::NotFound);
            },
        };
        let content = match decode_entries(&encv) {
            Ok(kb) => kb,
            Err(e) => {
                return Err(e);
            },
        };
        Ok(MptRo { backend: self.backend, root: bytes_clone(root), content })
    }

    /// Serializes the handle: the root, the backend position and the
    /// history prefix, each framed.
    pub fn encode(&self) -> (r: Vec<u8>)
        ensures
            r@ == enc_seg(self.root_bytes()) + enc_seg(u64_bytes(self.backend_id())) + enc_seg(
                u64_bytes(self.header_pfx()),
            ),
    {
        let mut out: Vec<u8> = Vec::new();
        push_seg(&mut out, &self.root);
        let nb = u64_to_bytes(self.backend);
        push_seg(&mut out, &nb);
        let hb = u64_to_bytes(self.header_set.raw_pfx());
        push_seg(&mut out, &hb);
        proof {
            assert(out@ =~= enc_seg(self.root_bytes()) + enc_seg(u64_bytes(self.backend_id()))
                + enc_seg(u64_bytes(self.header_pfx())));
        }
        out
    }

    /// Rebuilds a handle from its serialized form. The decoded handle
    /// aliases the same backend and history; a root shorter than a digest
    /// or a dangling position is refused.
    pub fn decode(db: &Db, bytes: &Vec<u8>) -> (r: Result<MptOnce, Error>)
        requires
            db.wf(),
        ensures
            match r {
                Ok(m) => {
                    &&& m.valid(*db)
                    &&& m.root_bytes().len() >= 32
                    // the handle is read back from the input's three
                    // framed segments: root, backend, history prefix
                    &&& bytes@.take(m.root_bytes().len() + 40 as int) == enc_seg(m.root_bytes())
                        + enc_seg(u64_bytes(m.backend_id())) + enc_seg(u64_bytes(m.header_pfx()))
                    &&& backend_has(*db, m.backend_id(), m.root_bytes())
                    &&& enc_entries(m.content_cols().0, m.content_cols().1) == stored(
                        *db,
                        m.backend_id(),
                        m.root_bytes(),
                    )
                },
                Err(e) => (e == Error::ShapeMismatch || e == Error::NotFound)
                    && !handle_coded(*db, bytes@),
            },
    {
        let (root, p1) = match read_seg(bytes, 0) {
            Ok(p) => p,
            Err(e) => {
                proof {
                    assert(!handle_coded(*db, bytes@)) by {
                        if handle_coded(*db, bytes@) {
                            lemma_handle_coded_facts(*db, bytes@);
                        }
                    }
                }
                return Err(e);
            },
        };
        proof {
            if handle_coded(*db, bytes@) {
                lemma_handle_coded_facts(*db, bytes@);
                // the first segment is the witness's root
                assert(bytes@.subrange(0, 8) =~= u64_bytes(root@.len() as u64)) by {
                    assert(forall|i: int|
                        0 <= i < 8 ==> #[trigger] bytes@.subrange(0, 8)[i] == bytes@.subrange(
                            0,
                            p1 as int,
                        )[i]);
                }
                lemma_u64_bytes_roundtrip(root@.len() as u64);
            }
        }
        if root.len() < 32 {
            proof {
                assert(!handle_coded(*db, bytes@)) by {
                    if handle_coded(*db, bytes@) {
                        assert(root@.len() == u64_unbytes(bytes@.subrange(0, 8)));
                    }
                }
            }
            return Err(Error::ShapeMismatch);
        }
        let (bb, p2) = match read_seg(bytes, p1) {
            Ok(p) => p,
            Err(e) => {
                proof {
                    assert(!handle_coded(*db, bytes@)) by {
                        if handle_coded(*db, bytes@) {
                            assert(root@.len() == u64_unbytes(bytes@.subrange(0, 8)));
                        }
                    }
                }
                return Err(e);
            },
        };
        proof {
            if handle_coded(*db, bytes@) {
                assert(root@.len() == u64_unbytes(bytes@.subrange(0, 8)));
                assert(bytes@.subrange(p1 as int, p1 + 8) =~= u64_bytes(bb@.len() as u64)) by {
                    assert(forall|i: int|
                        0 <= i < 8 ==> #[trigger] bytes@.subrange(p1 as int, p1 + 8)[i]
                            == bytes@.subrange(p1 as int, p2 as int)[i]);
                }
                lemma_u64_bytes_roundtrip(bb@.len() as u64);
                assert(bb@.len() == 8);
                assert(bb@ =~= bytes@.subrange(p1 + 8, p1 + 16)) by {
                    assert(forall|i: int|
                        0 <= i < bb@.len() ==> #[trigger] bytes@.subrange(p1 + 8, p2 as int)[i]
                            == bytes@.subrange(p1 as int, p2 as int)[8 + i]);
                }
            }
        }
        let (hb, _p3) = match read_seg(bytes, p2) {
            Ok(p) => p,
            Err(e) => {
                proof {
                    assert(!handle_coded(*db, bytes@)) by {
                        if handle_coded(*db, bytes@) {
                            assert(root@.len() == u64_unbytes(bytes@.subrange(0, 8)));
                            assert(bb@.len() == 8);
                        }
                    }
                }
                return Err(e);
            },
        };
        proof {
            if handle_coded(*db, bytes@) {
                assert(root@.len() == u64_unbytes(bytes@.subrange(0, 8)));
                assert(bb@.len() == 8);
                assert(bytes@.subrange(p2 as int, p2 + 8) =~= u64_bytes(hb@.len() as u64)) by {
                    assert(forall|i: int|
                        0 <= i < 8 ==> #[trigger] bytes@.subrange(p2 as int, p2 + 8)[i]
                            == bytes@.subrange(p2 as int, _p3 as int)[i]);
                }
                lemma_u64_bytes_roundtrip(hb@.len() as u64);
                assert(hb@.len() == 8);
                assert(hb@ =~= bytes@.subrange(p2 + 8, p2 + 16)) by {
                    assert(forall|i: int|
                        0 <= i < hb@.len() ==> #[trigger] bytes@.subrange(p2 + 8, _p3 as int)[i]
                            == bytes@.subrange(p2 as int, _p3 as int)[8 + i]);
                }
            }
        }
        if bb.len() != 8 || hb.len() != 8 {
            proof {
                assert(!handle_coded(*db, bytes@));
            }
            return Err(Error::ShapeMismatch);
        }
        let bnid = u64_from_bytes(&bb);
        let hpfx = u64_from_bytes(&hb);
        proof {
            if handle_coded(*db, bytes@) {
                assert(bnid == u64_unbytes(bytes@.subrange(p1 + 8, p1 + 16)));
                assert(hpfx == u64_unbytes(bytes@.subrange(p2 + 8, p2 + 16)));
            }
        }
        if bnid >= db.nodes.len() as u64 || hpfx >= db.insts.len() as u64 {
            proof {
                assert(!handle_coded(*db, bytes@));
            }
            return Err(Error::NotFound);
        }
        let encv = match raw_chain_get(db, bnid, &root) {
            Some(v) => v,
            None => {
                proof {
                    assert(!handle_coded(*db, bytes@)) by {
                        if handle_coded(*db, bytes@) {
                            assert(root@ =~= bytes@.subrange(8, p1 as int)) by {
                                assert(forall|i: int|
                                    0 <= i < root@.len() ==> #[trigger] bytes@.subrange(
                                        8,
                                        p1 as int,
                                    )[i] == bytes@.subrange(0, p1 as int)[8 + i]);
                            }
                        }
                    }
                }
                return Err(Error::NotFound);
            },
        };
        let content = match decode_entries(&encv) {
            Ok(kb) => kb,
            Err(e) => {
                proof {
                    assert(!handle_coded(*db, bytes@)) by {
                        if handle_coded(*db, bytes@) {
                            assert(root@ =~= bytes@.subrange(8, p1 as int)) by {
                                assert(forall|i: int|
                                    0 <= i < root@.len() ==> #[trigger] bytes@.subrange(
                                        8,
                                        p1 as int,
                                    )[i] == bytes@.subrange(0, p1 as int)[8 + i]);
                            }
                        }
                    }
                }
                return Err(e);
            },
        };
        proof {
            crate::ende::lemma_bytes8_unbytes(bb@);
            crate::ende::lemma_bytes8_unbytes(hb@);
            assert(bytes@.take(root@.len() + 40 as int) =~= bytes@.subrange(0, p1 as int)
                + bytes@.subrange(p1 as int, p2 as int) + bytes@.subrange(p2 as int, _p3 as int));
        }
        Ok(MptOnce { backend: bnid, root, content, header_set: Mapx::from_raw(hpfx) })
    }
}

/// The bytes are the framed triple of a handle that can be reopened
/// against `db`: a digest-length root, a live backend holding readable
/// version bytes for it, and an allocated history prefix.
pub open spec fn handle_coded(db: Db, bytes: Seq<u8>) -> bool {
    exists|rt: Seq<u8>, bn: u64, hp: u64|
        #![trigger enc_seg(rt) + enc_seg(u64_bytes(bn)) + enc_seg(u64_bytes(hp))]
        bytes == enc_seg(rt) + enc_seg(u64_bytes(bn)) + enc_seg(u64_bytes(hp)) && rt.len() >= 32
            && rt.len() < 0x1_0000_0000_0000_0000 && db.node_ok(bn) && db.inst_ok(hp)
            && backend_has(db, bn, rt) && entries_coded(stored(db, bn, rt))
}

/// What a live, well-framed serialized handle forces on its bytes: the
/// three length prefixes in bounds, the announced widths, and the stored
/// version readable.
proof fn lemma_handle_coded_facts(db: Db, bytes: Seq<u8>)
    requires
        handle_coded(db, bytes),
    ensures
        ({
            let rlen = u64_unbytes(bytes.subrange(0, 8)) as int;
            let p1 = 8 + rlen;
            let p2 = p1 + 16;
            &&& bytes.len() == p2 + 16
            &&& rlen >= 32
            &&& u64_unbytes(bytes.subrange(p1, p1 + 8)) == 8
            &&& u64_unbytes(bytes.subrange(p2, p2 + 8)) == 8
            &&& ({
                let rt = bytes.subrange(8, p1);
                let bn = u64_unbytes(bytes.subrange(p1 + 8, p1 + 16));
                let hp = u64_unbytes(bytes.subrange(p2 + 8, p2 + 16));
                &&& db.node_ok(bn)
                &&& db.inst_ok(hp)
                &&& backend_has(db, bn, rt)
                &&& entries_coded(stored(db, bn, rt))
            })
        }),
{
    let (rt, bn, hp) = choose|rt: Seq<u8>, bn: u64, hp: u64|
        #![trigger enc_seg(rt) + enc_seg(u64_bytes(bn)) + enc_seg(u64_bytes(hp))]
        bytes == enc_seg(rt) + enc_seg(u64_bytes(bn)) + enc_seg(u64_bytes(hp)) && rt.len() >= 32
            && rt.len() < 0x1_0000_0000_0000_0000 && db.node_ok(bn) && db.inst_ok(hp)
            && backend_has(db, bn, rt) && entries_coded(stored(db, bn, rt));
    lemma_u64_bytes_roundtrip(rt.len() as u64);
    lemma_u64_bytes_roundtrip(bn);
    lemma_u64_bytes_roundtrip(hp);
    assert(bytes.len() == 8 + rt.len() + 16 + 16);
    assert(bytes.subrange(0, 8) =~= u64_bytes(rt.len() as u64));
    let rlen = rt.len() as int;
    let p1 = 8 + rlen;
    let p2 = p1 + 16;
    assert(bytes.subrange(8, p1) =~= rt);
    assert(bytes.subrange(p1, p1 + 8) =~= u64_bytes(8u64)) by {
        assert(forall|i: int|
            0 <= i < 8 ==> #[trigger] bytes.subrange(p1, p1 + 8)[i] == enc_seg(
                u64_bytes(bn),
            )[i]);
    }
    lemma_u64_bytes_roundtrip(8u64);
    assert(bytes.subrange(p1 + 8, p1 + 16) =~= u64_bytes(bn)) by {
        assert(forall|i: int|
            0 <= i < 8 ==> #[trigger] bytes.subrange(p1 + 8, p1 + 16)[i] == enc_seg(
                u64_bytes(bn),
            )[8 + i]);
    }
    assert(bytes.subrange(p2, p2 + 8) =~= u64_bytes(8u64)) by {
        assert(forall|i: int|
            0 <= i < 8 ==> #[trigger] bytes.subrange(p2, p2 + 8)[i] == enc_seg(
                u64_bytes(hp),
            )[i]);
    }
    assert(bytes.subrange(p2 + 8, p2 + 16) =~= u64_bytes(hp)) by {
        assert(forall|i: int|
            0 <= i < 8 ==> #[trigger] bytes.subrange(p2 + 8, p2 + 16)[i] == enc_seg(
                u64_bytes(hp),
            )[8 + i]);
    }
}

/// A read-only trie view pinned to one root.
pub struct MptRo {
    pub(crate) backend: u64,
    pub(crate) root: Vec<u8>,
    pub(crate) content: KvBuf,
}

impl MptRo {
    /// The root this view is pinned to.
    pub closed spec fn root_bytes(self) -> Seq<u8> {
        self.root@
    }

    /// The pinned content as a map.
    pub closed spec fn content_map(self) -> Map<Seq<u8>, Seq<u8>> {
        self.content@
    }

    /// The pinned content's columns.
    pub closed spec fn content_cols(self) -> (Seq<Seq<u8>>, Seq<Seq<u8>>) {
        (self.content.kseq(), self.content.vseq())
    }

    /// The columns are well-formed.
    pub closed spec fn content_ok(self) -> bool {
        self.content.wf()
    }

    /// A view pinned to `root` through `backend`, as long as the chain
    /// still holds that root.
    pub fn from_existing(db: &Db, backend: &TrieBackend, root: &Vec<u8>) -> (r: Result<
        MptRo,
        Error,
    >)
        requires
            db.wf(),
            backend.valid(*db),
        ensures
            match r {
                Ok(m) => {
                    &&& backend_has(*db, backend.node_id(), root@)
                    &&& entries_coded(stored(*db, backend.node_id(), root@))
                    &&& m.root_bytes() == root@
                    &&& m.content_ok()
                    &&& enc_entries(m.content_cols().0, m.content_cols().1) == stored(
                        *db,
                        backend.node_id(),
                        root@,
                    )
                },
                Err(e) => (e == Error::NotFound && !backend_has(*db, backend.node_id(), root@))
                    || (e == Error::ShapeMismatch && backend_has(*db, backend.node_id(), root@)
                    && !entries_coded(stored(*db, backend.node_id(), root@))),
            },
    {
        let encv = match raw_chain_get(db, backend.nid, root) {
            Some(v) => v,
            None => {
                return Err(Error::NotFound);
            },
        };
        let content = match decode_entries(&encv) {
            Ok(kb) => kb,
            Err(e) => {
                return Err(e);
            },
        };
        Ok(MptRo { backend: backend.nid, root: bytes_clone(root), content })
    }

    /// Reads `key` from the pinned content.
    pub fn get(&self, db: &Db, key: &Vec<u8>) -> (r: Result<Option<Vec<u8>>, Error>)
        requires
            self.content_ok(),
        ensures
            match r {
                Ok(Some(v)) => self.content_map().contains_key(key@) && v@
                    == self.content_map()[key@],
                Ok(None) => !self.content_map().contains_key(key@),
                Err(_) => false,
            },
    {
        Ok(self.content.get(key))
    }

    /// Whether `key` is bound in the pinned content.
    pub fn contains(&self, db: &Db, key: &Vec<u8>) -> (r: Result<bool, Error>)
        requires
            self.content_ok(),
        ensures
            r matches Ok(b) && b == self.content_map().contains_key(key@),
    {
        Ok(self.content.has(key))
    }

    /// Every binding of the pinned content, copied out.
    #[verifier::spinoff_prover]
    #[verifier::rlimit(60)]
    pub fn iter(&self, db: &Db) -> (r: Vec<(Vec<u8>, Vec<u8>)>)
        requires
            self.content_ok(),
        ensures
            r@.len() == self.content_map().dom().len(),
            r@.len() == self.content_cols().0.len(),
            forall|i: int| 0 <= i < r@.len() ==> #[trigger] r@[i].0@ == self.content_cols().0[i],
            forall|i: int| 0 <= i < r@.len() ==> #[trigger] r@[i].1@ == self.content_cols().1[i],
            forall|i: int|
                0 <= i < r@.len() ==> self.content_map().contains_key(#[trigger] r@[i].0@)
                    && r@[i].1@ == self.content_map()[r@[i].0@],
            forall|k: Seq<u8>|
                #[trigger] self.content_map().contains_key(k) ==> exists|i: int|
                    0 <= i < r@.len() && r@[i].0@ == k,
    {
        proof {
            self.content.lemma_size();
        }
        let mut out: Vec<(Vec<u8>, Vec<u8>)> = Vec::new();
        let n = self.content.num();
        let mut i: usize = 0;
        while i < n
            invariant
                self.content_ok(),
                n == self.content.kseq().len(),
                i <= n,
                out@.len() == i,
                forall|j: int| 0 <= j < i ==> #[trigger] out@[j].0@ == self.content.kseq()[j],
                forall|j: int| 0 <= j < i ==> #[trigger] out@[j].1@ == self.content.vseq()[j],
            decreases n - i,
        {
            let k = self.content.key_at(i);
            let v = self.content.val_at(i);
            out.push((k, v));
            proof {
                assert(out@[i as int].0@ == self.content.kseq()[i as int]);
                assert(out@[i as int].1@ == self.content.vseq()[i as int]);
            }
            i += 1;
        }
        proof {
            self.content.lemma_size();
            assert forall|k: Seq<u8>| #[trigger] self.content_map().contains_key(k) implies exists|
                i2: int,
            | 0 <= i2 < out@.len() && out@[i2].0@ == k by {
                let i2 = choose|i2: int|
                    0 <= i2 < self.content.kseq().len() && self.content.kseq()[i2] == k;
                assert(out@[i2].0@ == k);
            }
        }
        out
    }

    /// Every bound key of the pinned content, copied out.
    pub fn key_iter(&self, db: &Db) -> (r: Vec<Vec<u8>>)
        requires
            self.content_ok(),
        ensures
            r@.len() == self.content_map().dom().len(),
            r@.len() == self.content_cols().0.len(),
            // the listed keys are the key projection of `iter`, in order
            forall|i: int| 0 <= i < r@.len() ==> #[trigger] r@[i]@ == self.content_cols().0[i],
            forall|i: int|
                0 <= i < r@.len() ==> self.content_map().contains_key(#[trigger] r@[i]@),
            forall|k: Seq<u8>|
                #[trigger] self.content_map().contains_key(k) ==> exists|i: int|
                    0 <= i < r@.len() && r@[i]@ == k,
    {
        proof {
            self.content.lemma_size();
        }
        let mut out: Vec<Vec<u8>> = Vec::new();
        let n = self.content.num();
        let mut i: usize = 0;
        while i < n
            invariant
                self.content_ok(),
                n == self.content.kseq().len(),
                i <= n,
                out@.len() == i,
                forall|j: int| 0 <= j < i ==> #[trigger] out@[j]@ == self.content.kseq()[j],
            decreases n - i,
        {
            let k = self.content.key_at(i);
            out.push(k);
            i += 1;
        }
        proof {
            self.content.lemma_size();
            assert forall|k: Seq<u8>| #[trigger] self.content_map().contains_key(k) implies exists|
                i2: int,
            | 0 <= i2 < out@.len() && out@[i2]@ == k by {
                let i2 = choose|i2: int|
                    0 <= i2 < self.content.kseq().len() && self.content.kseq()[i2] == k;
                assert(out@[i2]@ == k);
            }
        }
        out
    }

    /// The root this view is pinned to.
    pub fn root(&self) -> (r: Vec<u8>)
        ensures
            r@ == self.root_bytes(),
    {
        bytes_clone(&self.root)
    }
}

} // verus!
