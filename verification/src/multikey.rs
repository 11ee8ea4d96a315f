//! Multi-key maps: one instance keyed by the framed concatenation of the
//! key parts.
//!
//! A path of N parts is stored under `enc_segs` of the parts, so a
//! partial path is exactly a byte prefix of every full path below it:
//! removal under a partial path drops the whole subtree, and a key tuple
//! of the wrong width is refused.

use crate::bytes::bytes_clone;
use crate::ende::{enc_seg, enc_segs, push_seg, read_seg, ValueEnDe};
use crate::engine::Db;
use crate::error::Error;
use crate::mapx::Mapx;
use vstd::prelude::*;

verus! {

/// The stored form of a key path.
pub open spec fn mk_key(parts: Seq<Seq<u8>>) -> Seq<u8> {
    enc_segs(parts)
}

/// `p` is a byte prefix of `k`.
pub open spec fn starts_with(k: Seq<u8>, p: Seq<u8>) -> bool {
    p.len() <= k.len() && k.take(p.len() as int) == p
}

/// Peeling one part off the front of a framed path.
proof fn lemma_enc_segs_step(ss: Seq<Seq<u8>>, i: int)
    requires
        0 <= i < ss.len(),
    ensures
        enc_segs(ss.skip(i)) == enc_seg(ss[i]) + enc_segs(ss.skip(i + 1)),
{
    assert(ss.skip(i)[0] == ss[i]);
    assert(ss.skip(i).drop_first() =~= ss.skip(i + 1));
}

/// Writes a key path in its stored form.
fn encode_key(parts: &Vec<Vec<u8>>) -> (r: Vec<u8>)
    ensures
        r@ == mk_key(parts.deep_view()),
{
    let mut out: Vec<u8> = Vec::new();
    proof {
        assert(parts.deep_view().skip(0) =~= parts.deep_view());
        assert(out@ + enc_segs(parts.deep_view()) =~= enc_segs(parts.deep_view()));
    }
    let mut i: usize = 0;
    while i < parts.len()
        invariant
            i <= parts@.len(),
            out@ + enc_segs(parts.deep_view().skip(i as int)) == enc_segs(parts.deep_view()),
        decreases parts@.len() - i,
    {
        proof {
            assert(parts@[i as int].deep_view() =~= parts@[i as int]@);
            lemma_enc_segs_step(parts.deep_view(), i as int);
        }
        push_seg(&mut out, &parts[i]);
        i += 1;
    }
    proof {
        assert(parts.deep_view().skip(parts@.len() as int) =~= Seq::<Seq<u8>>::empty());
        assert(out@ =~= enc_segs(parts.deep_view()));
    }
    out
}

/// Reads a stored key back into exactly `want` parts; refused when the
/// bytes are not a `want`-part framed path.
fn parse_parts(b: &Vec<u8>, want: usize) -> (r: Result<Vec<Vec<u8>>, Error>)
    ensures
        match r {
            Ok(parts) => parts@.len() == want && mk_key(parts.deep_view()) == b@,
            Err(e) => e == Error::ShapeMismatch,
        },
{
    let mut parts: Vec<Vec<u8>> = Vec::new();
    let mut pos: usize = 0;
    proof {
        assert(enc_segs(parts.deep_view()) =~= b@.take(0));
    }
    while parts.len() < want
        invariant
            pos <= b@.len(),
            parts@.len() <= want,
            enc_segs(parts.deep_view()) == b@.take(pos as int),
        decreases want - parts@.len(),
    {
        let ghost pp = parts.deep_view();
        let ghost oldpos = pos as int;
        let (seg, p2) = match read_seg(b, pos) {
            Ok(p) => p,
            Err(e) => {
                return Err(e);
            },
        };
        parts.push(seg);
        pos = p2;
        proof {
            assert(parts.deep_view() =~~= pp.push(parts@[parts@.len() - 1]@));
            lemma_enc_segs_push(pp, parts@[parts@.len() - 1]@);
            assert(b@.take(pos as int) =~= b@.take(oldpos) + enc_seg(parts@[parts@.len() - 1]@));
        }
    }
    if pos != b.len() {
        return Err(Error::ShapeMismatch);
    }
    proof {
        assert(b@.take(b@.len() as int) =~= b@);
    }
    Ok(parts)
}

/// Appending one part extends the framed path by its segment.
proof fn lemma_enc_segs_push(ss: Seq<Seq<u8>>, x: Seq<u8>)
    ensures
        enc_segs(ss.push(x)) == enc_segs(ss) + enc_seg(x),
    decreases ss.len(),
{
    broadcast use vstd::seq_lib::group_seq_properties;

    if ss.len() == 0 {
        assert(ss.push(x)[0] == x);
        assert(ss.push(x).drop_first() =~= Seq::<Seq<u8>>::empty());
        assert(enc_segs(ss.push(x)) =~= enc_segs(ss) + enc_seg(x));
    } else {
        lemma_enc_segs_push(ss.drop_first(), x);
        assert(ss.push(x)[0] == ss[0]);
        assert(ss.push(x).drop_first() =~= ss.drop_first().push(x));
        assert(enc_segs(ss.push(x)) =~= enc_segs(ss) + enc_seg(x));
    }
}

/// Whether `k` starts with the bytes of `p`.
fn is_prefix(k: &Vec<u8>, p: &Vec<u8>) -> (r: bool)
    ensures
        r == starts_with(k@, p@),
{
    if p.len() > k.len() {
        return false;
    }
    let mut i: usize = 0;
    while i < p.len()
        invariant
            p@.len() <= k@.len(),
            i <= p@.len(),
            forall|j: int| 0 <= j < i ==> k@[j] == p@[j],
        decreases p@.len() - i,
    {
        if k[i] != p[i] {
            proof {
                assert(k@.take(p@.len() as int)[i as int] != p@[i as int]);
            }
            return false;
        }
        i += 1;
    }
    proof {
        assert(k@.take(p@.len() as int) =~= p@);
    }
    true
}

/// A map keyed by a fixed number of byte-string key parts.
pub struct MapxRawKeyMk<V> {
    pub(crate) key_size: usize,
    pub(crate) root: Mapx,
    pub(crate) marker: core::marker::PhantomData<V>,
}

impl<V: ValueEnDe> MapxRawKeyMk<V> {
    /// How many key parts every full path carries.
    pub closed spec fn arity(self) -> usize {
        self.key_size
    }

    /// The underlying instance's prefix.
    pub closed spec fn root_pfx(self) -> u64 {
        self.root.pfx()
    }

    /// The stored bindings, keyed by framed paths.
    pub open spec fn contents(self, db: Db) -> Map<Seq<u8>, Seq<u8>> {
        db.at(self.root_pfx())
    }

    /// The handle's instance is allocated.
    pub closed spec fn valid(self, db: Db) -> bool {
        self.root.valid(db)
    }

    /// An empty map expecting `key_size` key parts per entry.
    pub fn new(db: &mut Db, key_size: usize) -> (r: MapxRawKeyMk<V>)
        requires
            old(db).wf(),
            old(db).insts.len() < u64::MAX,
        ensures
            final(db).wf(),
            r.valid(*final(db)),
            r.arity() == key_size,
            r.contents(*final(db)) == Map::<Seq<u8>, Seq<u8>>::empty(),
            final(db).insts.len() == old(db).insts.len() + 1,
            final(db).nodes == old(db).nodes,
            forall|q: u64|
                q < old(db).insts.len() ==> final(db).insts[q as int] == old(db).insts[q as int],
    {
        let root = Mapx::new(db);
        MapxRawKeyMk { key_size, root, marker: core::marker::PhantomData }
    }

    /// Reads the value under a full key path. A path of the wrong width
    /// reads as absent.
    pub fn get(&self, db: &Db, keys: &Vec<Vec<u8>>) -> (r: Option<V>)
        requires
            db.wf(),
            self.valid(*db),
        ensures
            keys@.len() != self.arity() ==> r is None,
            keys@.len() == self.arity() && keys@.len() > 0 ==> (match r {
                Some(v) => self.contents(*db).contains_key(mk_key(keys.deep_view()))
                    && v.spec_enc() == self.contents(*db)[mk_key(keys.deep_view())],
                None => !self.contents(*db).contains_key(mk_key(keys.deep_view()))
                    || !V::decodable(self.contents(*db)[mk_key(keys.deep_view())]),
            }),
    {
        if keys.len() != self.key_size || keys.len() == 0 {
            return None;
        }
        let k = encode_key(keys);
        let bytes = match self.root.get(db, &k) {
            Some(b) => b,
            None => {
                return None;
            },
        };
        match V::decode(&bytes) {
            Ok(v) => Some(v),
            Err(_) => None,
        }
    }

    /// Binds a full key path to `value`; returns the previous value
    /// under that path, if any. A path of the wrong width is refused and
    /// changes nothing.
    pub fn insert(&self, db: &mut Db, keys: &Vec<Vec<u8>>, value: &V) -> (r: Result<
        Option<V>,
        Error,
    >)
        requires
            old(db).wf(),
            self.valid(*old(db)),
        ensures
            final(db).wf(),
            self.valid(*final(db)),
            r is Err <==> keys@.len() != self.arity() || keys@.len() == 0,
            r is Err ==> r->Err_0 == Error::ShapeMismatch && *final(db) == *old(db),
            r is Ok ==> self.contents(*final(db)) == self.contents(*old(db)).insert(
                mk_key(keys.deep_view()),
                value.spec_enc(),
            ) && Db::only_inst_changed(*old(db), *final(db), self.root_pfx()) && (match r->Ok_0 {
                Some(p) => self.contents(*old(db)).contains_key(mk_key(keys.deep_view()))
                    && p.spec_enc() == self.contents(*old(db))[mk_key(keys.deep_view())],
                None => !self.contents(*old(db)).contains_key(mk_key(keys.deep_view()))
                    || !V::decodable(self.contents(*old(db))[mk_key(keys.deep_view())]),
            }),
    {
        if keys.len() != self.key_size || keys.len() == 0 {
            return Err(Error::ShapeMismatch);
        }
        let k = encode_key(keys);
        let enc = value.encode();
        let prev = self.root.insert(db, &k, &enc);
        match prev {
            Some(bytes) => {
                match V::decode(&bytes) {
                    Ok(v) => Ok(Some(v)),
                    Err(_) => Ok(None),
                }
            },
            None => Ok(None),
        }
    }

    /// Removes under a key path. A full path removes one binding and
    /// returns it; a shorter path returns nothing but drops every
    /// binding below it; an empty path removes nothing; a path wider
    /// than the map's keys is refused.
    pub fn remove(&self, db: &mut Db, keys: &Vec<Vec<u8>>) -> (r: Result<Option<V>, Error>)
        requires
            old(db).wf(),
            self.valid(*old(db)),
        ensures
            final(db).wf(),
            self.valid(*final(db)),
            keys@.len() > self.arity() ==> r is Err && r->Err_0 == Error::ShapeMismatch
                && *final(db) == *old(db),
            keys@.len() == 0 ==> (r matches Ok(p) && p is None) && *final(db) == *old(db),
            0 < keys@.len() && keys@.len() < self.arity() ==> (r matches Ok(p) && p is None)
                && Db::only_inst_changed(*old(db), *final(db), self.root_pfx()) && (forall|
                k: Seq<u8>,
            |
                #[trigger] self.contents(*final(db)).contains_key(k) <==> (self.contents(
                    *old(db),
                ).contains_key(k) && !starts_with(k, mk_key(keys.deep_view())))) && (forall|
                k: Seq<u8>,
            |
                #[trigger] self.contents(*final(db)).contains_key(k) ==> self.contents(
                    *final(db),
                )[k] == self.contents(*old(db))[k]),
            keys@.len() == self.arity() && keys@.len() > 0 ==> r is Ok && self.contents(
                *final(db),
            ) == self.contents(*old(db)).remove(mk_key(keys.deep_view()))
                && Db::only_inst_changed(*old(db), *final(db), self.root_pfx()) && (match r->Ok_0 {
                Some(p) => self.contents(*old(db)).contains_key(mk_key(keys.deep_view()))
                    && p.spec_enc() == self.contents(*old(db))[mk_key(keys.deep_view())],
                None => !self.contents(*old(db)).contains_key(mk_key(keys.deep_view()))
                    || !V::decodable(self.contents(*old(db))[mk_key(keys.deep_view())]),
            }),
    {
        if keys.len() > self.key_size {
            return Err(Error::ShapeMismatch);
        }
        if keys.len() == 0 {
            return Ok(None);
        }
        let k = encode_key(keys);
        if keys.len() == self.key_size {
            let prev = self.root.remove(db, &k);
            return match prev {
                Some(bytes) => {
                    match V::decode(&bytes) {
                        Ok(v) => Ok(Some(v)),
                        Err(_) => Ok(None),
                    }
                },
                None => Ok(None),
            };
        }
        // a partial path names no single value: drop everything below it
        let ghost pre = *db;
        let items = self.root.entries(db);
        let mut doomed: Vec<Vec<u8>> = Vec::new();
        let mut i: usize = 0;
        while i < items.len()
            invariant
                i <= items@.len(),
                forall|j: int|
                    0 <= j < items@.len() ==> self.contents(pre).contains_key(
                        #[trigger] items@[j].0@,
                    ),
                forall|k2: Seq<u8>|
                    #[trigger] self.contents(pre).contains_key(k2) ==> exists|j: int|
                        0 <= j < items@.len() && items@[j].0@ == k2,
                forall|j: int|
                    0 <= j < doomed@.len() ==> self.contents(pre).contains_key(
                        #[trigger] doomed@[j]@,
                    ) && starts_with(doomed@[j]@, k@),
                forall|j: int|
                    0 <= j < i && starts_with(#[trigger] items@[j].0@, k@) ==> exists|j2: int|
                        0 <= j2 < doomed@.len() && doomed@[j2]@ == items@[j].0@,
            decreases items@.len() - i,
        {
            let kb = bytes_clone(&items[i].0);
            let ghost pd = doomed@;
            if is_prefix(&kb, &k) {
                doomed.push(kb);
                proof {
                    assert(doomed@[doomed@.len() - 1]@ == items@[i as int].0@);
                    assert(forall|j: int| 0 <= j < pd.len() ==> doomed@[j] == #[trigger] pd[j]);
                }
            }
            i += 1;
        }
        let mut t: usize = 0;
        while t < doomed.len()
            invariant
                db.wf(),
                self.valid(*db),
                t <= doomed@.len(),
                Db::only_inst_changed(pre, *db, self.root_pfx()),
                forall|j: int|
                    0 <= j < doomed@.len() ==> self.contents(pre).contains_key(
                        #[trigger] doomed@[j]@,
                    ) && starts_with(doomed@[j]@, k@),
                forall|k2: Seq<u8>|
                    #[trigger] self.contents(*db).contains_key(k2) ==> self.contents(
                        pre,
                    ).contains_key(k2) && self.contents(*db)[k2] == self.contents(pre)[k2],
                forall|k2: Seq<u8>|
                    #[trigger] self.contents(pre).contains_key(k2) && !(exists|j: int|
                        0 <= j < t && doomed@[j]@ == k2) ==> self.contents(*db).contains_key(k2),
                forall|j: int|
                    0 <= j < t ==> !self.contents(*db).contains_key(#[trigger] doomed@[j]@),
            decreases doomed@.len() - t,
        {
            self.root.remove(db, &doomed[t]);
            proof {
                assert forall|k2: Seq<u8>|
                    #[trigger] self.contents(pre).contains_key(k2) && !(exists|j: int|
                        0 <= j < t + 1 && doomed@[j]@ == k2) implies self.contents(
                    *db,
                ).contains_key(k2) by {
                    assert(!(exists|j: int| 0 <= j < t && doomed@[j]@ == k2));
                    assert(k2 != doomed@[t as int]@);
                }
            }
            t += 1;
        }
        proof {
            assert forall|k2: Seq<u8>|
                #[trigger] self.contents(*db).contains_key(k2) <==> (self.contents(
                pre,
            ).contains_key(k2) && !starts_with(k2, mk_key(keys.deep_view()))) by {
                if self.contents(pre).contains_key(k2) && starts_with(k2, k@) {
                    let j = choose|j: int| 0 <= j < items@.len() && items@[j].0@ == k2;
                    assert(starts_with(items@[j].0@, k@));
                    let j2 = choose|j2: int| 0 <= j2 < doomed@.len() && doomed@[j2]@ == k2;
                    assert(!self.contents(*db).contains_key(doomed@[j2]@));
                }
                if self.contents(pre).contains_key(k2) && !starts_with(k2, k@) {
                    assert(!(exists|j: int| 0 <= j < doomed@.len() && doomed@[j]@ == k2)) by {
                        if exists|j: int| 0 <= j < doomed@.len() && doomed@[j]@ == k2 {
                            let j = choose|j: int| 0 <= j < doomed@.len() && doomed@[j]@ == k2;
                        }
                    }
                }
            }
        }
        Ok(None)
    }

    /// Binds the path to `value` only when nothing readable is bound
    /// there yet. An empty or wrong-width path is refused.
    pub fn or_insert(&self, db: &mut Db, keys: &Vec<Vec<u8>>, value: &V) -> (r: Result<(), Error>)
        requires
            old(db).wf(),
            self.valid(*old(db)),
        ensures
            final(db).wf(),
            self.valid(*final(db)),
            r is Err <==> keys@.len() != self.arity() || keys@.len() == 0,
            r is Err ==> r->Err_0 == Error::ShapeMismatch && *final(db) == *old(db),
            r is Ok ==> self.contents(*final(db)).contains_key(mk_key(keys.deep_view())),
    {
        if keys.len() != self.key_size || keys.len() == 0 {
            return Err(Error::ShapeMismatch);
        }
        match self.get(db, keys) {
            Some(_) => Ok(()),
            None => {
                match self.insert(db, keys, value) {
                    Ok(_) => Ok(()),
                    Err(e) => Err(e),
                }
            },
        }
    }

    /// The full-path bindings whose stored key starts with the given
    /// path prefix, keys spelled out in parts. Every listed pair is a
    /// binding of the map: its parts carry the full width, re-encode to
    /// its stored key, and the value decodes from the stored bytes.
    pub fn entries_with_key_prefix(&self, db: &Db, key_prefix: &Vec<Vec<u8>>) -> (r: Vec<
        (Vec<Vec<u8>>, V),
    >)
        requires
            db.wf(),
            self.valid(*db),
        ensures
            forall|i: int|
                0 <= i < r@.len() ==> (#[trigger] r@[i].0@).len() == self.arity()
                    && self.contents(*db).contains_key(mk_key(r@[i].0.deep_view())) && r@[i].1.spec_enc()
                    == self.contents(*db)[mk_key(r@[i].0.deep_view())] && starts_with(
                    mk_key(r@[i].0.deep_view()),
                    mk_key(key_prefix.deep_view()),
                ),
            key_prefix@.len() > self.arity() ==> r@.len() == 0,
    {
        let mut out: Vec<(Vec<Vec<u8>>, V)> = Vec::new();
        if key_prefix.len() > self.key_size {
            return out;
        }
        let pk = encode_key(key_prefix);
        let items = self.root.entries(db);
        let mut i: usize = 0;
        while i < items.len()
            invariant
                db.wf(),
                self.valid(*db),
                i <= items@.len(),
                forall|j: int|
                    0 <= j < items@.len() ==> self.contents(*db).contains_key(
                        #[trigger] items@[j].0@,
                    ) && items@[j].1@ == self.contents(*db)[items@[j].0@],
                pk@ == mk_key(key_prefix.deep_view()),
                forall|t: int|
                    0 <= t < out@.len() ==> (#[trigger] out@[t].0@).len() == self.arity()
                        && self.contents(*db).contains_key(mk_key(out@[t].0.deep_view()))
                        && out@[t].1.spec_enc() == self.contents(*db)[mk_key(out@[t].0.deep_view())]
                        && starts_with(mk_key(out@[t].0.deep_view()), mk_key(
                        key_prefix.deep_view(),
                    )),
            decreases items@.len() - i,
        {
            let kb = bytes_clone(&items[i].0);
            if is_prefix(&kb, &pk) {
                match parse_parts(&kb, self.key_size) {
                    Ok(parts) => {
                        match V::decode(&items[i].1) {
                            Ok(v) => {
                                out.push((parts, v));
                            },
                            Err(_) => {},
                        }
                    },
                    Err(_) => {},
                }
            }
            i += 1;
        }
        out
    }

    /// Every full-path binding in the map, keys spelled out in parts.
    pub fn entries(&self, db: &Db) -> (r: Vec<(Vec<Vec<u8>>, V)>)
        requires
            db.wf(),
            self.valid(*db),
        ensures
            forall|i: int|
                0 <= i < r@.len() ==> (#[trigger] r@[i].0@).len() == self.arity()
                    && self.contents(*db).contains_key(mk_key(r@[i].0.deep_view())) && r@[i].1.spec_enc()
                    == self.contents(*db)[mk_key(r@[i].0.deep_view())],
    {
        let empty: Vec<Vec<u8>> = Vec::new();
        self.entries_with_key_prefix(db, &empty)
    }
}

/// A map keyed by a pair of typed key parts.
pub struct MapxDk<K1, K2, V> {
    pub(crate) inner: MapxRawKeyMk<V>,
    pub(crate) marker: core::marker::PhantomData<(K1, K2)>,
}

impl<K1: ValueEnDe, K2: ValueEnDe, V: ValueEnDe> MapxDk<K1, K2, V> {
    /// The pair width of the wrapped map.
    pub closed spec fn arity(self) -> usize {
        self.inner.arity()
    }

    /// The handle's instance is allocated.
    pub closed spec fn valid(self, db: Db) -> bool {
        self.inner.valid(db)
    }

    /// The stored bindings, keyed by framed encoded pairs.
    pub closed spec fn contents(self, db: Db) -> Map<Seq<u8>, Seq<u8>> {
        self.inner.contents(db)
    }

    /// The stored key of a pair.
    pub open spec fn pair_key(k1: K1, k2: K2) -> Seq<u8> {
        mk_key(seq![k1.spec_enc(), k2.spec_enc()])
    }

    /// An empty double-keyed map.
    pub fn new(db: &mut Db) -> (r: MapxDk<K1, K2, V>)
        requires
            old(db).wf(),
            old(db).insts.len() < u64::MAX,
        ensures
            final(db).wf(),
            r.valid(*final(db)),
            r.arity() == 2,
            r.contents(*final(db)) == Map::<Seq<u8>, Seq<u8>>::empty(),
    {
        let inner = MapxRawKeyMk::new(db, 2);
        MapxDk { inner, marker: core::marker::PhantomData }
    }

    /// Reads the value under the key pair.
    pub fn get(&self, db: &Db, k1: &K1, k2: &K2) -> (r: Option<V>)
        requires
            db.wf(),
            self.valid(*db),
            self.arity() == 2,
        ensures
            match r {
                Some(v) => self.contents(*db).contains_key(Self::pair_key(*k1, *k2))
                    && v.spec_enc() == self.contents(*db)[Self::pair_key(*k1, *k2)],
                None => !self.contents(*db).contains_key(Self::pair_key(*k1, *k2))
                    || !V::decodable(self.contents(*db)[Self::pair_key(*k1, *k2)]),
            },
    {
        let mut keys: Vec<Vec<u8>> = Vec::new();
        keys.push(k1.encode());
        keys.push(k2.encode());
        proof {
            assert(keys@[0].deep_view() =~= keys@[0]@);
            assert(keys@[1].deep_view() =~= keys@[1]@);
            lemma_pair_parts(keys.deep_view(), k1.spec_enc(), k2.spec_enc());
        }
        self.inner.get(db, &keys)
    }

    /// Binds the key pair to `value`; returns the previous value, if
    /// any.
    pub fn insert(&self, db: &mut Db, k1: &K1, k2: &K2, value: &V) -> (r: Option<V>)
        requires
            old(db).wf(),
            self.valid(*old(db)),
            self.arity() == 2,
        ensures
            final(db).wf(),
            self.valid(*final(db)),
            self.contents(*final(db)) == self.contents(*old(db)).insert(
                Self::pair_key(*k1, *k2),
                value.spec_enc(),
            ),
            match r {
                Some(p) => self.contents(*old(db)).contains_key(Self::pair_key(*k1, *k2))
                    && p.spec_enc() == self.contents(*old(db))[Self::pair_key(*k1, *k2)],
                None => !self.contents(*old(db)).contains_key(Self::pair_key(*k1, *k2))
                    || !V::decodable(self.contents(*old(db))[Self::pair_key(*k1, *k2)]),
            },
    {
        let mut keys: Vec<Vec<u8>> = Vec::new();
        keys.push(k1.encode());
        keys.push(k2.encode());
        proof {
            assert(keys@[0].deep_view() =~= keys@[0]@);
            assert(keys@[1].deep_view() =~= keys@[1]@);
            lemma_pair_parts(keys.deep_view(), k1.spec_enc(), k2.spec_enc());
        }
        match self.inner.insert(db, &keys, value) {
            Ok(prev) => prev,
            Err(_) => {
                proof {
                    assert(false);
                }
                None
            },
        }
    }

    /// Removes under the pair, or, when no second part is given,
    /// everything stored below the first part.
    pub fn remove(&self, db: &mut Db, k1: &K1, k2: Option<&K2>) -> (r: Option<V>)
        requires
            old(db).wf(),
            self.valid(*old(db)),
            self.arity() == 2,
        ensures
            final(db).wf(),
            self.valid(*final(db)),
            k2 is Some ==> self.contents(*final(db)) == self.contents(*old(db)).remove(
                Self::pair_key(*k1, *k2.unwrap()),
            ) && (match r {
                Some(p) => self.contents(*old(db)).contains_key(Self::pair_key(*k1, *k2.unwrap()))
                    && p.spec_enc() == self.contents(*old(db))[Self::pair_key(*k1, *k2.unwrap())],
                None => !self.contents(*old(db)).contains_key(Self::pair_key(*k1, *k2.unwrap()))
                    || !V::decodable(
                    self.contents(*old(db))[Self::pair_key(*k1, *k2.unwrap())],
                ),
            }),
            k2 is None ==> r is None && (forall|k: Seq<u8>|
                #[trigger] self.contents(*final(db)).contains_key(k) <==> (self.contents(
                    *old(db),
                ).contains_key(k) && !starts_with(k, mk_key(seq![k1.spec_enc()])))),
    {
        let mut keys: Vec<Vec<u8>> = Vec::new();
        keys.push(k1.encode());
        match k2 {
            Some(k) => {
                keys.push(k.encode());
                proof {
                    assert(keys@[0].deep_view() =~= keys@[0]@);
                    assert(keys@[1].deep_view() =~= keys@[1]@);
                    lemma_pair_parts(keys.deep_view(), k1.spec_enc(), k.spec_enc());
                }
            },
            None => {
                proof {
                    assert(keys.deep_view() =~= seq![k1.spec_enc()]) by {
                        assert(keys@[0].deep_view() =~= keys@[0]@);
                    }
                }
            },
        }
        match self.inner.remove(db, &keys) {
            Ok(prev) => prev,
            Err(_) => {
                proof {
                    assert(false);
                }
                None
            },
        }
    }

    /// Binds the pair to `value` only when nothing readable is bound
    /// there yet.
    pub fn or_insert(&self, db: &mut Db, k1: &K1, k2: &K2, value: &V)
        requires
            old(db).wf(),
            self.valid(*old(db)),
            self.arity() == 2,
        ensures
            final(db).wf(),
            self.valid(*final(db)),
            self.contents(*final(db)).contains_key(Self::pair_key(*k1, *k2)),
    {
        let mut keys: Vec<Vec<u8>> = Vec::new();
        keys.push(k1.encode());
        keys.push(k2.encode());
        proof {
            assert(keys@[0].deep_view() =~= keys@[0]@);
            assert(keys@[1].deep_view() =~= keys@[1]@);
            lemma_pair_parts(keys.deep_view(), k1.spec_enc(), k2.spec_enc());
        }
        match self.inner.or_insert(db, &keys, value) {
            Ok(_) => {},
            Err(_) => {
                proof {
                    assert(false);
                }
            },
        }
    }
}

/// Two pushed encodings read back as the two-part sequence.
proof fn lemma_pair_parts(dv: Seq<Seq<u8>>, a: Seq<u8>, b: Seq<u8>)
    requires
        dv.len() == 2,
        dv[0] == a,
        dv[1] == b,
    ensures
        dv == seq![a, b],
{
    assert(dv =~= seq![a, b]);
}

} // verus!
