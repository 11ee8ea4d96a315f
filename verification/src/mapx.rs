//! A logical map identified by a prefix into a [`Db`].
//!
//! A `Mapx` holds no entries of its own: the prefix is the whole handle,
//! and every operation reads or writes the instance it names inside the
//! `Db` it is given. Serializing a `Mapx` therefore emits just the prefix,
//! and deserializing it aliases the same instance.

use crate::bytes::{bytes_clone, lemma_u64_bytes_roundtrip, u64_from_bytes, u64_to_bytes, u64_bytes};
use crate::engine::Db;
use crate::error::Error;
use vstd::prelude::*;

verus! {

/// A prefix-identified map inside a [`Db`].
pub struct Mapx {
    pub(crate) prefix: u64,
}

impl Mapx {
    /// The prefix this handle names.
    pub closed spec fn pfx(self) -> u64 {
        self.prefix
    }

    /// The prefix names an allocated instance.
    pub open spec fn valid(self, db: Db) -> bool {
        db.inst_ok(self.pfx())
    }

    /// The map this handle denotes in `db`.
    pub open spec fn contents(self, db: Db) -> Map<Seq<u8>, Seq<u8>> {
        db.at(self.pfx())
    }

    /// The prefix, read out for the crate's own plumbing.
    pub(crate) fn raw_pfx(&self) -> (r: u64)
        ensures
            r == self.pfx(),
    {
        self.prefix
    }

    /// A handle onto a known prefix, for the crate's own plumbing.
    pub(crate) fn from_raw(p: u64) -> (m: Mapx)
        ensures
            m.pfx() == p,
    {
        Mapx { prefix: p }
    }

    /// Creates a fresh, empty instance and returns its handle.
    pub fn new(db: &mut Db) -> (r: Mapx)
        requires
            old(db).wf(),
            old(db).insts.len() < u64::MAX,
        ensures
            final(db).wf(),
            r.valid(*final(db)),
            r.pfx() == old(db).insts.len(),
            r.contents(*final(db)) == Map::<Seq<u8>, Seq<u8>>::empty(),
            final(db).insts.len() == old(db).insts.len() + 1,
            final(db).nodes == old(db).nodes,
            forall|q: u64|
                q < old(db).insts.len() ==> final(db).insts[q as int] == old(db).insts[q as int],
    {
        let prefix = db.alloc_prefix();
        Mapx { prefix }
    }

    /// A second handle to the same instance. The two handles alias: writes
    /// through either are seen through both.
    pub fn shadow(&self) -> (r: Mapx)
        ensures
            r.pfx() == self.pfx(),
    {
        Mapx { prefix: self.prefix }
    }

    /// The value under `key`, copied out.
    pub fn get(&self, db: &Db, key: &Vec<u8>) -> (r: Option<Vec<u8>>)
        requires
            db.wf(),
            self.valid(*db),
        ensures
            match r {
                Some(v) => self.contents(*db).contains_key(key@) && v@ == self.contents(*db)[key@],
                None => !self.contents(*db).contains_key(key@),
            },
    {
        db.insts[self.prefix as usize].buf.get(key)
    }

    /// Whether `key` is bound.
    pub fn contains_key(&self, db: &Db, key: &Vec<u8>) -> (r: bool)
        requires
            db.wf(),
            self.valid(*db),
        ensures
            r == self.contents(*db).contains_key(key@),
    {
        db.insts[self.prefix as usize].buf.has(key)
    }

    /// Binds `key` to `value`; returns the value previously bound, if any.
    /// The length counter grows exactly when the key was absent, and no
    /// other instance changes.
    pub fn insert(&self, db: &mut Db, key: &Vec<u8>, value: &Vec<u8>) -> (prev: Option<Vec<u8>>)
        requires
            old(db).wf(),
            self.valid(*old(db)),
        ensures
            final(db).wf(),
            self.valid(*final(db)),
            self.contents(*final(db)) == self.contents(*old(db)).insert(key@, value@),
            Db::only_inst_changed(*old(db), *final(db), self.pfx()),
            match prev {
                Some(p) => self.contents(*old(db)).contains_key(key@) && p@ == self.contents(
                    *old(db),
                )[key@],
                None => !self.contents(*old(db)).contains_key(key@),
            },
    {
        let idx = self.prefix as usize;
        let inst = &mut db.insts[idx];
        let prev = inst.buf.set(bytes_clone(key), bytes_clone(value));
        if prev.is_none() {
            proof {
                vstd::std_specs::vec::axiom_spec_len(&inst.buf.keys);
            }
            inst.len = inst.len + 1;
        }
        proof {
            lemma_only_inst_wf(*old(db), *db, self.pfx());
        }
        prev
    }

    /// Unbinds `key`; returns the value previously bound, if any. The
    /// length counter shrinks exactly when the key was present, and no
    /// other instance changes.
    pub fn remove(&self, db: &mut Db, key: &Vec<u8>) -> (prev: Option<Vec<u8>>)
        requires
            old(db).wf(),
            self.valid(*old(db)),
        ensures
            final(db).wf(),
            self.valid(*final(db)),
            self.contents(*final(db)) == self.contents(*old(db)).remove(key@),
            Db::only_inst_changed(*old(db), *final(db), self.pfx()),
            match prev {
                Some(p) => self.contents(*old(db)).contains_key(key@) && p@ == self.contents(
                    *old(db),
                )[key@],
                None => !self.contents(*old(db)).contains_key(key@),
            },
    {
        let idx = self.prefix as usize;
        let inst = &mut db.insts[idx];
        let prev = inst.buf.del(key);
        if prev.is_some() {
            inst.len = inst.len - 1;
        }
        proof {
            lemma_only_inst_wf(*old(db), *db, self.pfx());
        }
        prev
    }

    /// Drops every entry and resets the length counter.
    pub fn clear(&self, db: &mut Db)
        requires
            old(db).wf(),
            self.valid(*old(db)),
        ensures
            final(db).wf(),
            self.valid(*final(db)),
            self.contents(*final(db)) == Map::<Seq<u8>, Seq<u8>>::empty(),
            Db::only_inst_changed(*old(db), *final(db), self.pfx()),
    {
        let idx = self.prefix as usize;
        let inst = &mut db.insts[idx];
        inst.buf.clear();
        inst.len = 0;
        proof {
            lemma_only_inst_wf(*old(db), *db, self.pfx());
        }
    }

    /// The persisted entry count, which equals the size of the map.
    pub fn len(&self, db: &Db) -> (r: u64)
        requires
            db.wf(),
            self.valid(*db),
        ensures
            r == self.contents(*db).dom().len(),
            self.contents(*db).dom().finite(),
    {
        proof {
            db.insts[self.pfx() as int].buf.lemma_size();
        }
        db.get_instance_len(self.prefix)
    }

    /// Whether the map holds no entry.
    pub fn is_empty(&self, db: &Db) -> (r: bool)
        requires
            db.wf(),
            self.valid(*db),
        ensures
            r == (self.contents(*db).dom().len() == 0),
    {
        self.len(db) == 0
    }

    /// All entries, copied out. The pairs carry distinct keys, every pair
    /// is a binding of the map, and every binding appears.
    pub fn entries(&self, db: &Db) -> (r: Vec<(Vec<u8>, Vec<u8>)>)
        requires
            db.wf(),
            self.valid(*db),
        ensures
            r@.len() == self.contents(*db).dom().len(),
            forall|i: int|
                0 <= i < r@.len() ==> self.contents(*db).contains_key(#[trigger] r@[i].0@)
                    && r@[i].1@ == self.contents(*db)[r@[i].0@],
            forall|i: int, j: int| 0 <= i < j < r@.len() ==> r@[i].0@ != r@[j].0@,
            forall|k: Seq<u8>|
                #[trigger] self.contents(*db).contains_key(k) ==> exists|i: int|
                    0 <= i < r@.len() && r@[i].0@ == k,
    {
        let buf = &db.insts[self.prefix as usize].buf;
        proof {
            buf.lemma_size();
        }
        let mut r: Vec<(Vec<u8>, Vec<u8>)> = Vec::new();
        let n = buf.num();
        let mut i: usize = 0;
        while i < n
            invariant
                db.wf(),
                self.valid(*db),
                buf == &db.insts[self.pfx() as int].buf,
                n == buf.kseq().len(),
                i <= n,
                r@.len() == i,
                forall|j: int| 0 <= j < i ==> #[trigger] r@[j].0@ == buf.kseq()[j],
                forall|j: int| 0 <= j < i ==> #[trigger] r@[j].1@ == buf.vseq()[j],
            decreases n - i,
        {
            let k = buf.key_at(i);
            let v = buf.val_at(i);
            r.push((k, v));
            i += 1;
        }
        proof {
            buf.lemma_size();
            assert forall|k: Seq<u8>| #[trigger] self.contents(*db).contains_key(k) implies exists|
                i: int,
            | 0 <= i < r@.len() && r@[i].0@ == k by {
                let i = choose|i: int| 0 <= i < buf.kseq().len() && buf.kseq()[i] == k;
                assert(r@[i].0@ == k);
            }
        }
        r
    }


    /// The bindings whose key lies in `lo <= key < hi` under byte order,
    /// copied out: every listed pair is such a binding and every such
    /// binding is listed. The listing follows the instance's storage
    /// order, not the byte order.
    pub fn range(&self, db: &Db, lo: &Vec<u8>, hi: &Vec<u8>) -> (r: Vec<(Vec<u8>, Vec<u8>)>)
        requires
            db.wf(),
            self.valid(*db),
        ensures
            forall|i: int|
                0 <= i < r@.len() ==> self.contents(*db).contains_key(#[trigger] r@[i].0@)
                    && r@[i].1@ == self.contents(*db)[r@[i].0@] && crate::bytes::lex_le(
                    lo@,
                    r@[i].0@,
                ) && crate::bytes::lex_lt(r@[i].0@, hi@),
            forall|i: int, j: int| 0 <= i < j < r@.len() ==> r@[i].0@ != r@[j].0@,
            forall|k: Seq<u8>|
                #[trigger] self.contents(*db).contains_key(k) && crate::bytes::lex_le(lo@, k)
                    && crate::bytes::lex_lt(k, hi@) ==> exists|i: int|
                    0 <= i < r@.len() && r@[i].0@ == k,
    {
        let items = self.entries(db);
        let mut out: Vec<(Vec<u8>, Vec<u8>)> = Vec::new();
        let mut i: usize = 0;
        while i < items.len()
            invariant
                db.wf(),
                self.valid(*db),
                i <= items@.len(),
                forall|j: int|
                    0 <= j < items@.len() ==> self.contents(*db).contains_key(
                        #[trigger] items@[j].0@,
                    ) && items@[j].1@ == self.contents(*db)[items@[j].0@],
                forall|j: int, l: int| 0 <= j < l < items@.len() ==> items@[j].0@ != items@[l].0@,
                forall|k: Seq<u8>|
                    #[trigger] self.contents(*db).contains_key(k) ==> exists|j: int|
                        0 <= j < items@.len() && items@[j].0@ == k,
                forall|t: int|
                    0 <= t < out@.len() ==> self.contents(*db).contains_key(#[trigger] out@[t].0@)
                        && out@[t].1@ == self.contents(*db)[out@[t].0@] && crate::bytes::lex_le(
                        lo@,
                        out@[t].0@,
                    ) && crate::bytes::lex_lt(out@[t].0@, hi@),
                forall|t: int, l: int| 0 <= t < l < out@.len() ==> out@[t].0@ != out@[l].0@,
                forall|t: int|
                    0 <= t < out@.len() ==> exists|j: int|
                        0 <= j < i && #[trigger] out@[t].0@ == items@[j].0@,
                forall|j: int|
                    0 <= j < i && crate::bytes::lex_le(lo@, #[trigger] items@[j].0@)
                        && crate::bytes::lex_lt(items@[j].0@, hi@) ==> exists|t: int|
                        0 <= t < out@.len() && out@[t].0@ == items@[j].0@,
            decreases items@.len() - i,
        {
            let k = bytes_clone(&items[i].0);
            let below_lo = crate::bytes::bytes_lt(&k, lo);
            let in_hi = crate::bytes::bytes_lt(&k, hi);
            let ghost po = out@;
            if !below_lo && in_hi {
                proof {
                    crate::bytes::lemma_lex_total(k@, lo@);
                }
                let v = bytes_clone(&items[i].1);
                out.push((k, v));
                proof {
                    assert(out@[out@.len() - 1].0@ == items@[i as int].0@);
                    assert(forall|t: int| 0 <= t < po.len() ==> out@[t] == #[trigger] po[t]);
                    assert forall|t: int, l: int|
                        0 <= t < l < out@.len() implies out@[t].0@ != out@[l].0@ by {
                        if l == out@.len() - 1 {
                            let j = choose|j: int|
                                0 <= j < i && #[trigger] out@[t].0@ == items@[j].0@;
                            assert(items@[j].0@ != items@[i as int].0@);
                        }
                    }
                }
            } else {
                proof {
                    assert forall|j: int|
                        0 <= j < i + 1 && crate::bytes::lex_le(lo@, #[trigger] items@[j].0@)
                            && crate::bytes::lex_lt(items@[j].0@, hi@) implies exists|t: int|
                        0 <= t < out@.len() && out@[t].0@ == items@[j].0@ by {
                        if j == i {
                            if below_lo {
                                crate::bytes::lemma_lex_asym(k@, lo@);
                            }
                        }
                    }
                }
            }
            i += 1;
        }
        proof {
            assert forall|k: Seq<u8>|
                #[trigger] self.contents(*db).contains_key(k) && crate::bytes::lex_le(lo@, k)
                    && crate::bytes::lex_lt(k, hi@) implies exists|t: int|
                0 <= t < out@.len() && out@[t].0@ == k by {
                let j = choose|j: int| 0 <= j < items@.len() && items@[j].0@ == k;
                assert(crate::bytes::lex_le(lo@, items@[j].0@));
            }
        }
        out
    }

    /// The prefix as its eight-byte serialized form.
    pub fn as_prefix_slice(&self) -> (r: Vec<u8>)
        ensures
            r@ == u64_bytes(self.pfx()),
            r@.len() == 8,
    {
        u64_to_bytes(self.prefix)
    }

    /// Adopts a serialized prefix. The returned handle aliases whatever
    /// instance the prefix named when it was serialized; the caller is
    /// answerable for that instance still existing. An input that is not
    /// exactly eight bytes is refused.
    pub fn from_prefix_slice(s: &Vec<u8>) -> (r: Result<Mapx, Error>)
        ensures
            match r {
                Ok(m) => s@.len() == 8 && m.pfx() == crate::bytes::u64_unbytes(s@),
                Err(e) => s@.len() != 8 && e == Error::ShapeMismatch,
            },
    {
        if s.len() != 8 {
            return Err(Error::ShapeMismatch);
        }
        Ok(Mapx { prefix: u64_from_bytes(s) })
    }

    /// Whether the two handles name the same instance.
    pub fn is_the_same_instance(&self, other_hdr: &Mapx) -> (r: bool)
        ensures
            r == (self.pfx() == other_hdr.pfx()),
    {
        self.prefix == other_hdr.prefix
    }

    /// A deep copy: a fresh instance holding the same entries.
    pub fn deep_clone(&self, db: &mut Db) -> (r: Mapx)
        requires
            old(db).wf(),
            self.valid(*old(db)),
            old(db).insts.len() < u64::MAX,
        ensures
            final(db).wf(),
            r.valid(*final(db)),
            r.pfx() != self.pfx(),
            r.contents(*final(db)) == self.contents(*old(db)),
            self.contents(*final(db)) == self.contents(*old(db)),
            final(db).insts.len() == old(db).insts.len() + 1,
            final(db).nodes == old(db).nodes,
            forall|q: u64|
                q < old(db).insts.len() ==> final(db).insts[q as int] == old(db).insts[q as int],
    {
        let src = self.entries(db);
        let dst = Mapx::new(db);
        let ghost pre = *db;
        let mut i: usize = 0;
        while i < src.len()
            invariant
                db.wf(),
                dst.valid(*db),
                self.valid(*db),
                dst.pfx() == pre.insts.len() - 1,
                self.pfx() < pre.insts.len() - 1,
                i <= src@.len(),
                forall|j: int|
                    0 <= j < src@.len() ==> self.contents(pre).contains_key(#[trigger] src@[j].0@)
                        && src@[j].1@ == self.contents(pre)[src@[j].0@],
                forall|j: int, l: int| 0 <= j < l < src@.len() ==> src@[j].0@ != src@[l].0@,
                forall|k: Seq<u8>|
                    #[trigger] self.contents(pre).contains_key(k) ==> exists|j: int|
                        0 <= j < src@.len() && src@[j].0@ == k,
                forall|k: Seq<u8>|
                    #[trigger] dst.contents(*db).contains_key(k) <==> exists|j: int|
                        0 <= j < i && src@[j].0@ == k,
                forall|j: int|
                    0 <= j < i ==> dst.contents(*db)[#[trigger] src@[j].0@] == src@[j].1@,
                Db::only_inst_changed(pre, *db, dst.pfx()),
                db.insts.len() == pre.insts.len(),
            decreases src@.len() - i,
        {
            dst.insert(db, &src[i].0, &src[i].1);
            i += 1;
        }
        proof {
            assert(dst.contents(*db) =~= self.contents(pre));
            assert(self.contents(*db) =~= self.contents(pre));
        }
        dst
    }

    /// Whether the two handles hold equal contents in `db`.
    pub fn content_eq(&self, other: &Mapx, db: &Db) -> (r: bool)
        requires
            db.wf(),
            self.valid(*db),
            other.valid(*db),
        ensures
            r == (self.contents(*db) == other.contents(*db)),
    {
        let a = self.entries(db);
        let n = self.len(db);
        let m = other.len(db);
        if n != m {
            proof {
                if self.contents(*db) == other.contents(*db) {
                    assert(self.contents(*db).dom().len() == other.contents(*db).dom().len());
                }
            }
            return false;
        }
        let mut i: usize = 0;
        while i < a.len()
            invariant
                db.wf(),
                self.valid(*db),
                other.valid(*db),
                i <= a@.len(),
                a@.len() == self.contents(*db).dom().len(),
                forall|j: int|
                    0 <= j < a@.len() ==> self.contents(*db).contains_key(#[trigger] a@[j].0@)
                        && a@[j].1@ == self.contents(*db)[a@[j].0@],
                forall|k: Seq<u8>|
                    #[trigger] self.contents(*db).contains_key(k) ==> exists|j: int|
                        0 <= j < a@.len() && a@[j].0@ == k,
                self.contents(*db).dom().len() == other.contents(*db).dom().len(),
                self.contents(*db).dom().finite(),
                other.contents(*db).dom().finite(),
                forall|j: int|
                    0 <= j < i ==> other.contents(*db).contains_key(#[trigger] a@[j].0@)
                        && other.contents(*db)[a@[j].0@] == a@[j].1@,
            decreases a@.len() - i,
        {
            match other.get(db, &a[i].0) {
                Some(v) => {
                    if !crate::bytes::bytes_eq(&v, &a[i].1) {
                        return false;
                    }
                },
                None => {
                    return false;
                },
            }
            i += 1;
        }
        proof {
            assert forall|k: Seq<u8>| #[trigger] self.contents(*db).contains_key(k)
                implies other.contents(*db).contains_key(k) && other.contents(*db)[k]
                == self.contents(*db)[k] by {
                let j = choose|j: int| 0 <= j < a@.len() && a@[j].0@ == k;
                assert(other.contents(*db).contains_key(a@[j].0@));
            }
            vstd::set_lib::lemma_subset_equality(
                self.contents(*db).dom(),
                other.contents(*db).dom(),
            );
            assert(self.contents(*db) =~= other.contents(*db));
        }
        true
    }
}

/// If only one instance changed between two well-formed-sized states and
/// that instance is itself well-formed, the whole store stays well-formed.
pub proof fn lemma_only_inst_wf(pre: Db, post: Db, p: u64)
    requires
        pre.wf(),
        Db::only_inst_changed(pre, post, p),
        p < post.insts.len() ==> post.insts[p as int].wf(),
    ensures
        post.wf(),
{
    assert forall|i: int| 0 <= i < post.insts.len() implies (#[trigger] post.insts[i]).wf() by {
        if i != p {
            assert(post.insts[i] == pre.insts[i]);
        }
    }
    assert forall|i: int| 0 <= i < post.nodes.len() implies post.node_wf(i) by {
        assert(pre.node_wf(i));
    }
}

/// Serialization round trip: a handle rebuilt from its serialized prefix
/// names the same instance, so in any one store the two alias.
pub proof fn lemma_prefix_roundtrip(m: Mapx, db: Db)
    ensures
        ({
            let s = u64_bytes(m.pfx());
            let back = crate::bytes::u64_unbytes(s);
            back == m.pfx() && db.at(back) == m.contents(db)
        }),
{
    lemma_u64_bytes_roundtrip(m.pfx());
}

} // verus!
verus! {

/// Length consistency: after any sequence of inserts and removes, the
/// persisted counter of a map equals the number of entries it holds.
pub proof fn lemma_length_consistency(db: Db, m: Mapx)
    requires
        db.wf(),
        m.valid(db),
    ensures
        db.insts[m.pfx() as int].len == m.contents(db).dom().len(),
{
    db.insts[m.pfx() as int].buf.lemma_size();
}

/// Prefix isolation: an operation that changes only one instance leaves
/// every map under a different prefix exactly as it was.
pub proof fn lemma_prefix_isolation(pre: Db, post: Db, a: Mapx, other: Mapx)
    requires
        Db::only_inst_changed(pre, post, a.pfx()),
        other.valid(pre),
        other.pfx() != a.pfx(),
    ensures
        other.contents(post) == other.contents(pre),
{
    assert(post.insts[other.pfx() as int] == pre.insts[other.pfx() as int]);
}

} // verus!
