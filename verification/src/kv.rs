//! Association lists from byte keys to values, with a `Map` view.
//!
//! Every logical map in this crate (instance data, children registries,
//! write caches) is carried by a key-distinct association list; the lemmas
//! here relate the executable operations to `Map` operations.

use crate::bytes::{bytes_clone, bytes_eq};
use vstd::prelude::*;

verus! {

/// The map described by parallel key/value columns: later entries win.
pub open spec fn assoc_view<V>(ks: Seq<Seq<u8>>, vs: Seq<V>) -> Map<Seq<u8>, V>
    decreases ks.len(),
{
    if ks.len() == 0 || ks.len() != vs.len() {
        Map::empty()
    } else {
        assoc_view(ks.drop_last(), vs.drop_last()).insert(ks.last(), vs.last())
    }
}

/// All keys in the column are pairwise distinct.
pub open spec fn distinct_keys(ks: Seq<Seq<u8>>) -> bool {
    forall|i: int, j: int| 0 <= i < j < ks.len() ==> ks[i] != ks[j]
}

/// A key column stays distinct when its last entry is dropped.
pub proof fn lemma_distinct_drop_last(ks: Seq<Seq<u8>>)
    requires
        distinct_keys(ks),
        ks.len() > 0,
    ensures
        distinct_keys(ks.drop_last()),
{
}

/// What the association view holds: exactly the listed keys, each bound to
/// its column value, and as many map entries as rows.
pub proof fn lemma_assoc_props<V>(ks: Seq<Seq<u8>>, vs: Seq<V>)
    requires
        ks.len() == vs.len(),
        distinct_keys(ks),
    ensures
        forall|k: Seq<u8>|
            #[trigger] assoc_view(ks, vs).contains_key(k) ==> exists|i: int|
                0 <= i < ks.len() && ks[i] == k,
        forall|i: int| 0 <= i < ks.len() ==> assoc_view(ks, vs).contains_key(#[trigger] ks[i]),
        forall|i: int| 0 <= i < ks.len() ==> assoc_view(ks, vs)[#[trigger] ks[i]] == vs[i],
        assoc_view(ks, vs).dom().finite(),
        assoc_view(ks, vs).dom().len() == ks.len(),
    decreases ks.len(),
{
    if ks.len() > 0 {
        lemma_distinct_drop_last(ks);
        lemma_assoc_props(ks.drop_last(), vs.drop_last());
        let inner = assoc_view(ks.drop_last(), vs.drop_last());
        assert(!inner.contains_key(ks.last())) by {
            if inner.contains_key(ks.last()) {
                let i = choose|i: int|
                    0 <= i < ks.drop_last().len() && ks.drop_last()[i] == ks.last();
                assert(ks[i] == ks[ks.len() - 1]);
            }
        }
        assert(assoc_view(ks, vs).dom() =~= inner.dom().insert(ks.last()));
        vstd::set::axiom_set_insert_len(inner.dom(), ks.last());
        assert forall|i: int| 0 <= i < ks.len() implies assoc_view(ks, vs).contains_key(
            #[trigger] ks[i],
        ) && assoc_view(ks, vs)[ks[i]] == vs[i] by {
            if i < ks.len() - 1 {
                assert(ks.drop_last()[i] == ks[i]);
                assert(vs.drop_last()[i] == vs[i]);
                assert(ks[i] != ks.last());
            }
        }
        assert forall|k: Seq<u8>| #[trigger] assoc_view(ks, vs).contains_key(k) implies exists|
            i: int,
        | 0 <= i < ks.len() && ks[i] == k by {
            if k == ks.last() {
                assert(ks[ks.len() - 1] == k);
            } else {
                let i = choose|i: int|
                    0 <= i < ks.drop_last().len() && ks.drop_last()[i] == k;
                assert(ks[i] == k);
            }
        }
    }
}

/// A key absent from the column is absent from the view.
pub proof fn lemma_assoc_absent<V>(ks: Seq<Seq<u8>>, vs: Seq<V>, k: Seq<u8>)
    requires
        ks.len() == vs.len(),
        forall|i: int| 0 <= i < ks.len() ==> ks[i] != k,
    ensures
        !assoc_view(ks, vs).contains_key(k),
    decreases ks.len(),
{
    if ks.len() > 0 {
        assert(forall|i: int|
            0 <= i < ks.drop_last().len() ==> #[trigger] ks.drop_last()[i] == ks[i]);
        lemma_assoc_absent(ks.drop_last(), vs.drop_last(), k);
    }
}

/// Overwriting one value column entry inserts over its key.
pub proof fn lemma_assoc_update<V>(ks: Seq<Seq<u8>>, vs: Seq<V>, i: int, v: V)
    requires
        ks.len() == vs.len(),
        distinct_keys(ks),
        0 <= i < ks.len(),
    ensures
        assoc_view(ks, vs.update(i, v)) == assoc_view(ks, vs).insert(ks[i], v),
    decreases ks.len(),
{
    let vs2 = vs.update(i, v);
    assert(vs2.len() == ks.len());
    if i == ks.len() - 1 {
        assert(vs2.drop_last() =~= vs.drop_last());
        assert(vs2.last() == v);
        assert(assoc_view(ks, vs2) =~= assoc_view(ks, vs).insert(ks[i], v));
    } else {
        lemma_distinct_drop_last(ks);
        assert(vs2.drop_last() =~= vs.drop_last().update(i, v));
        assert(vs2.last() == vs.last());
        lemma_assoc_update(ks.drop_last(), vs.drop_last(), i, v);
        assert(ks.drop_last()[i] == ks[i]);
        assert(ks[i] != ks.last());
        assert(assoc_view(ks, vs2) =~= assoc_view(ks, vs).insert(ks[i], v));
    }
}

/// Removing one row removes its key from the view.
pub proof fn lemma_assoc_remove<V>(ks: Seq<Seq<u8>>, vs: Seq<V>, i: int)
    requires
        ks.len() == vs.len(),
        distinct_keys(ks),
        0 <= i < ks.len(),
    ensures
        assoc_view(ks.remove(i), vs.remove(i)) == assoc_view(ks, vs).remove(ks[i]),
        distinct_keys(ks.remove(i)),
    decreases ks.len(),
{
    let ks2 = ks.remove(i);
    let vs2 = vs.remove(i);
    assert(distinct_keys(ks2)) by {
        assert forall|a: int, b: int| 0 <= a < b < ks2.len() implies ks2[a] != ks2[b] by {
            let a0: int = if a < i {
                a
            } else {
                a + 1
            };
            let b0: int = if b < i {
                b
            } else {
                b + 1
            };
            assert(ks2[a] == ks[a0] && ks2[b] == ks[b0]);
        }
    }
    if i == ks.len() - 1 {
        assert(ks2 =~= ks.drop_last());
        assert(vs2 =~= vs.drop_last());
        lemma_distinct_drop_last(ks);
        assert(forall|j: int| 0 <= j < ks.drop_last().len() ==> #[trigger] ks.drop_last()[j] == ks[j]);
        lemma_assoc_absent(ks.drop_last(), vs.drop_last(), ks[i]);
        assert(assoc_view(ks2, vs2) =~= assoc_view(ks, vs).remove(ks[i]));
    } else {
        lemma_distinct_drop_last(ks);
        assert(ks2.drop_last() =~= ks.drop_last().remove(i));
        assert(vs2.drop_last() =~= vs.drop_last().remove(i));
        assert(ks2.last() == ks.last());
        assert(vs2.last() == vs.last());
        lemma_assoc_remove(ks.drop_last(), vs.drop_last(), i);
        assert(ks.drop_last()[i] == ks[i]);
        assert(ks[i] != ks.last());
        assert(assoc_view(ks2, vs2) =~= assoc_view(ks, vs).remove(ks[i]));
    }
}

/// A byte-to-byte association list with pairwise-distinct keys.
pub struct KvBuf {
    pub keys: Vec<Vec<u8>>,
    pub vals: Vec<Vec<u8>>,
}

impl View for KvBuf {
    type V = Map<Seq<u8>, Seq<u8>>;

    open spec fn view(&self) -> Map<Seq<u8>, Seq<u8>> {
        assoc_view(self.keys.deep_view(), self.vals.deep_view())
    }
}

impl KvBuf {
    /// The key column, by position.
    pub open spec fn kseq(self) -> Seq<Seq<u8>> {
        self.keys.deep_view()
    }

    /// The value column, by position.
    pub open spec fn vseq(self) -> Seq<Seq<u8>> {
        self.vals.deep_view()
    }

    /// Columns of equal length, keys pairwise distinct.
    pub open spec fn wf(self) -> bool {
        &&& self.keys.len() == self.vals.len()
        &&& distinct_keys(self.kseq())
    }

    pub fn new() -> (r: KvBuf)
        ensures
            r.wf(),
            r@ == Map::<Seq<u8>, Seq<u8>>::empty(),
            r.kseq().len() == 0,
    {
        KvBuf { keys: Vec::new(), vals: Vec::new() }
    }

    /// Number of entries held.
    pub fn num(&self) -> (r: usize)
        ensures
            r == self.kseq().len(),
    {
        self.keys.len()
    }

    /// Entry count and map size agree on a distinct-keyed list.
    pub proof fn lemma_size(self)
        requires
            self.wf(),
        ensures
            self@.dom().finite(),
            self@.dom().len() == self.kseq().len(),
            forall|i: int| 0 <= i < self.kseq().len() ==> self@.contains_key(#[trigger] self.kseq()[i]),
            forall|i: int| 0 <= i < self.kseq().len() ==> self@[#[trigger] self.kseq()[i]] == self.vseq()[i],
            forall|k: Seq<u8>|
                #[trigger] self@.contains_key(k) ==> exists|i: int|
                    0 <= i < self.kseq().len() && self.kseq()[i] == k,
    {
        lemma_assoc_props(self.kseq(), self.vseq());
    }

    /// A copy of the key at position `i`.
    pub fn key_at(&self, i: usize) -> (r: Vec<u8>)
        requires
            i < self.kseq().len(),
        ensures
            r@ == self.kseq()[i as int],
    {
        proof {
            assert(self.keys@[i as int].deep_view() =~= self.keys@[i as int]@);
        }
        bytes_clone(&self.keys[i])
    }

    /// A copy of the value at position `i`.
    pub fn val_at(&self, i: usize) -> (r: Vec<u8>)
        requires
            i < self.kseq().len(),
            self.wf(),
        ensures
            r@ == self.vseq()[i as int],
            self@.contains_key(self.kseq()[i as int]),
            r@ == self@[self.kseq()[i as int]],
    {
        proof {
            self.lemma_size();
            assert(self.vals@[i as int].deep_view() =~= self.vals@[i as int]@);
        }
        bytes_clone(&self.vals[i])
    }

    /// The position holding `k`, if any.
    fn find(&self, k: &Vec<u8>) -> (r: Option<usize>)
        requires
            self.wf(),
        ensures
            match r {
                Some(i) => i < self.kseq().len() && self.kseq()[i as int] == k@,
                None => forall|i: int| 0 <= i < self.kseq().len() ==> self.kseq()[i] != k@,
            },
    {
        let mut i: usize = 0;
        while i < self.keys.len()
            invariant
                self.keys.len() == self.kseq().len(),
                i <= self.kseq().len(),
                forall|j: int| 0 <= j < i ==> self.kseq()[j] != k@,
            decreases self.kseq().len() - i,
        {
            proof {
                assert(self.keys@[i as int].deep_view() =~= self.keys@[i as int]@);
            }
            if bytes_eq(&self.keys[i], k) {
                return Some(i);
            }
            i += 1;
        }
        None
    }

    /// Whether `k` is bound.
    pub fn has(&self, k: &Vec<u8>) -> (r: bool)
        requires
            self.wf(),
        ensures
            r == self@.contains_key(k@),
    {
        proof {
            self.lemma_size();
        }
        match self.find(k) {
            Some(_) => true,
            None => {
                proof {
                    lemma_assoc_absent(self.kseq(), self.vseq(), k@);
                }
                false
            },
        }
    }

    /// The value bound to `k`, copied out.
    pub fn get(&self, k: &Vec<u8>) -> (r: Option<Vec<u8>>)
        requires
            self.wf(),
        ensures
            match r {
                Some(v) => self@.contains_key(k@) && v@ == self@[k@],
                None => !self@.contains_key(k@),
            },
    {
        proof {
            self.lemma_size();
        }
        match self.find(k) {
            Some(i) => Some(self.val_at(i)),
            None => {
                proof {
                    lemma_assoc_absent(self.kseq(), self.vseq(), k@);
                }
                None
            },
        }
    }

    /// Binds `k` to `v`; returns the value previously bound, if any.
    pub fn set(&mut self, k: Vec<u8>, v: Vec<u8>) -> (prev: Option<Vec<u8>>)
        requires
            old(self).wf(),
        ensures
            final(self).wf(),
            final(self)@ == old(self)@.insert(k@, v@),
            match prev {
                Some(p) => old(self)@.contains_key(k@) && p@ == old(self)@[k@],
                None => !old(self)@.contains_key(k@),
            },
            old(self)@.contains_key(k@) ==> final(self).kseq().len() == old(self).kseq().len(),
            !old(self)@.contains_key(k@) ==> final(self).kseq().len() == old(self).kseq().len()
                + 1,
            !old(self)@.contains_key(k@) ==> final(self).kseq() == old(self).kseq().push(k@)
                && final(self).vseq() == old(self).vseq().push(v@),
    {
        proof {
            self.lemma_size();
        }
        match self.find(&k) {
            Some(i) => {
                let prev = self.val_at(i);
                proof {
                    lemma_assoc_update(self.kseq(), self.vseq(), i as int, v@);
                }
                self.vals[i] = v;
                proof {
                    assert(self.vals.deep_view() =~~= old(self).vseq().update(i as int, v@));
                }
                Some(prev)
            },
            None => {
                proof {
                    lemma_assoc_absent(self.kseq(), self.vseq(), k@);
                    lemma_assoc_push(self.kseq(), self.vseq(), k@, v@);
                }
                self.keys.push(k);
                self.vals.push(v);
                proof {
                    assert(self.keys.deep_view() =~~= old(self).kseq().push(k@));
                    assert(self.vals.deep_view() =~~= old(self).vseq().push(v@));
                }
                None
            },
        }
    }

    /// Unbinds `k`; returns the value previously bound, if any.
    pub fn del(&mut self, k: &Vec<u8>) -> (prev: Option<Vec<u8>>)
        requires
            old(self).wf(),
        ensures
            final(self).wf(),
            final(self)@ == old(self)@.remove(k@),
            match prev {
                Some(p) => old(self)@.contains_key(k@) && p@ == old(self)@[k@]
                    && final(self).kseq().len() + 1 == old(self).kseq().len(),
                None => !old(self)@.contains_key(k@) && final(self).kseq().len() == old(
                    self,
                ).kseq().len(),
            },
    {
        proof {
            self.lemma_size();
        }
        match self.find(k) {
            Some(i) => {
                let prev = self.val_at(i);
                proof {
                    lemma_assoc_remove(self.kseq(), self.vseq(), i as int);
                }
                self.keys.remove(i);
                self.vals.remove(i);
                proof {
                    assert(self.keys.deep_view() =~~= old(self).kseq().remove(i as int));
                    assert(self.vals.deep_view() =~~= old(self).vseq().remove(i as int));
                }
                Some(prev)
            },
            None => {
                proof {
                    lemma_assoc_absent(self.kseq(), self.vseq(), k@);
                    assert(old(self)@.remove(k@) =~= old(self)@);
                }
                None
            },
        }
    }

    /// Drops every entry.
    pub fn clear(&mut self)
        ensures
            final(self).wf(),
            final(self)@ == Map::<Seq<u8>, Seq<u8>>::empty(),
            final(self).kseq().len() == 0,
    {
        self.keys = Vec::new();
        self.vals = Vec::new();
    }
}

/// Appending a fresh row inserts its binding.
pub proof fn lemma_assoc_push<V>(ks: Seq<Seq<u8>>, vs: Seq<V>, k: Seq<u8>, v: V)
    requires
        ks.len() == vs.len(),
    ensures
        assoc_view(ks.push(k), vs.push(v)) == assoc_view(ks, vs).insert(k, v),
{
    assert(ks.push(k).drop_last() =~= ks);
    assert(vs.push(v).drop_last() =~= vs);
    assert(ks.push(k).last() == k);
    assert(vs.push(v).last() == v);
}

} // verus!
