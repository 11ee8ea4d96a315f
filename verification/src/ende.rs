//! Byte encodings: length-prefixed framing for entry lists and byte
//! segments, and the typed value codec.

use crate::bytes::{
    bytes_clone, lemma_u64_bytes_roundtrip, u64_bytes, u64_from_bytes, u64_to_bytes, u64_unbytes,
};
use crate::error::Error;
use crate::kv::{distinct_keys, KvBuf};
use vstd::prelude::*;

verus! {

/// One framed segment: eight length bytes, then the payload.
pub open spec fn enc_seg(s: Seq<u8>) -> Seq<u8> {
    u64_bytes(s.len() as u64) + s
}

/// A list of framed segments, in order.
pub open spec fn enc_segs(ss: Seq<Seq<u8>>) -> Seq<u8>
    decreases ss.len(),
{
    if ss.len() == 0 {
        Seq::empty()
    } else {
        enc_seg(ss[0]) + enc_segs(ss.drop_first())
    }
}

/// Entry columns as alternating framed key and value segments.
pub open spec fn enc_entries(ks: Seq<Seq<u8>>, vs: Seq<Seq<u8>>) -> Seq<u8>
    decreases ks.len(),
{
    if ks.len() == 0 || ks.len() != vs.len() {
        Seq::empty()
    } else {
        enc_seg(ks[0]) + enc_seg(vs[0]) + enc_entries(ks.drop_first(), vs.drop_first())
    }
}

/// Appends a framed segment.
pub fn push_seg(out: &mut Vec<u8>, s: &Vec<u8>)
    ensures
        final(out)@ == old(out)@ + enc_seg(s@),
{
    let lenb = u64_to_bytes(s.len() as u64);
    let mut i: usize = 0;
    while i < lenb.len()
        invariant
            i <= lenb@.len(),
            out@ == old(out)@ + lenb@.take(i as int),
        decreases lenb@.len() - i,
    {
        out.push(lenb[i]);
        proof {
            assert(out@ =~= old(out)@ + lenb@.take(i + 1));
        }
        i += 1;
    }
    proof {
        assert(lenb@.take(lenb@.len() as int) =~= lenb@);
    }
    let mut j: usize = 0;
    while j < s.len()
        invariant
            j <= s@.len(),
            out@ == old(out)@ + lenb@ + s@.take(j as int),
        decreases s@.len() - j,
    {
        out.push(s[j]);
        proof {
            assert(out@ =~= old(out)@ + lenb@ + s@.take(j + 1));
        }
        j += 1;
    }
    proof {
        assert(s@.take(s@.len() as int) =~= s@);
        assert(out@ =~= old(out)@ + enc_seg(s@));
    }
}

/// Encodes entry columns as framed pairs.
pub fn encode_entries(kb: &KvBuf) -> (r: Vec<u8>)
    requires
        kb.wf(),
    ensures
        r@ == enc_entries(kb.kseq(), kb.vseq()),
{
    let mut out: Vec<u8> = Vec::new();
    let n = kb.num();
    proof {
        assert(kb.kseq().skip(0) =~= kb.kseq());
        assert(kb.vseq().skip(0) =~= kb.vseq());
        assert(out@ + enc_entries(kb.kseq(), kb.vseq()) =~= enc_entries(kb.kseq(), kb.vseq()));
    }
    let mut i: usize = 0;
    while i < n
        invariant
            kb.wf(),
            n == kb.kseq().len(),
            i <= n,
            out@ + enc_entries(kb.kseq().skip(i as int), kb.vseq().skip(i as int))
                == enc_entries(kb.kseq(), kb.vseq()),
        decreases n - i,
    {
        let k = kb.key_at(i);
        let v = kb.val_at(i);
        push_seg(&mut out, &k);
        push_seg(&mut out, &v);
        proof {
            lemma_enc_entries_step(kb.kseq(), kb.vseq(), i as int);
        }
        i += 1;
    }
    proof {
        assert(kb.kseq().skip(n as int) =~= Seq::<Seq<u8>>::empty());
        assert(kb.vseq().skip(n as int) =~= Seq::<Seq<u8>>::empty());
        assert(out@ =~= enc_entries(kb.kseq(), kb.vseq()));
    }
    out
}

/// Peeling one entry off the front of the encoding.
proof fn lemma_enc_entries_step(ks: Seq<Seq<u8>>, vs: Seq<Seq<u8>>, i: int)
    requires
        ks.len() == vs.len(),
        0 <= i < ks.len(),
    ensures
        enc_entries(ks.skip(i), vs.skip(i)) == enc_seg(ks[i]) + enc_seg(vs[i]) + enc_entries(
            ks.skip(i + 1),
            vs.skip(i + 1),
        ),
{
    assert(ks.skip(i)[0] == ks[i]);
    assert(vs.skip(i)[0] == vs[i]);
    assert(ks.skip(i).drop_first() =~= ks.skip(i + 1));
    assert(vs.skip(i).drop_first() =~= vs.skip(i + 1));
}

/// A whole byte string is the encoding of some distinct-keyed entry
/// columns whose parts each fit a length prefix.
pub open spec fn entries_coded(s: Seq<u8>) -> bool {
    exists|ks: Seq<Seq<u8>>, vs: Seq<Seq<u8>>|
        #![trigger enc_entries(ks, vs)]
        ks.len() == vs.len() && distinct_keys(ks) && (forall|i: int|
            0 <= i < ks.len() ==> #[trigger] ks[i].len() < 0x1_0000_0000_0000_0000) && (forall|
            i: int,
        |
            0 <= i < vs.len() ==> #[trigger] vs[i].len() < 0x1_0000_0000_0000_0000) && enc_entries(
            ks,
            vs,
        ) == s
}

/// The remaining bytes encode entry columns whose keys extend the ones
/// already seen without repeating any.
pub open spec fn coded_tail(s: Seq<u8>, seen: Seq<Seq<u8>>) -> bool {
    exists|ks: Seq<Seq<u8>>, vs: Seq<Seq<u8>>|
        #![trigger enc_entries(ks, vs)]
        ks.len() == vs.len() && distinct_keys(seen + ks) && (forall|i: int|
            0 <= i < ks.len() ==> #[trigger] ks[i].len() < 0x1_0000_0000_0000_0000) && (forall|
            i: int,
        |
            0 <= i < vs.len() ==> #[trigger] vs[i].len() < 0x1_0000_0000_0000_0000) && enc_entries(
            ks,
            vs,
        ) == s
}

/// Reads the framed segment starting at `pos`; returns the payload and
/// the position after it. Refused exactly when fewer than eight bytes
/// remain, or fewer than the length prefix announces.
pub fn read_seg(b: &Vec<u8>, pos: usize) -> (r: Result<(Vec<u8>, usize), Error>)
    requires
        pos <= b@.len(),
    ensures
        match r {
            Ok(p) => {
                &&& pos + 8 <= b@.len()
                &&& p.1 == pos + 8 + p.0@.len()
                &&& p.1 <= b@.len()
                &&& b@.subrange(pos as int, p.1 as int) == enc_seg(p.0@)
            },
            Err(e) => e == Error::ShapeMismatch && (b@.len() - pos < 8 || 8 + u64_unbytes(
                b@.subrange(pos as int, pos + 8),
            ) > b@.len() - pos),
        },
{
    if b.len() - pos < 8 {
        return Err(Error::ShapeMismatch);
    }
    let mut lenb: Vec<u8> = Vec::new();
    let mut i: usize = 0;
    while i < 8
        invariant
            pos + 8 <= b@.len(),
            i <= 8,
            lenb@.len() == i,
            forall|j: int| 0 <= j < i ==> lenb@[j] == b@[pos + j],
        decreases 8 - i,
    {
        proof {
            vstd::std_specs::vec::axiom_spec_len(b);
        }
        lenb.push(b[pos + i]);
        i += 1;
    }
    let n = u64_from_bytes(&lenb);
    if n > (b.len() - pos - 8) as u64 {
        proof {
            assert(lenb@ =~= b@.subrange(pos as int, pos + 8));
        }
        return Err(Error::ShapeMismatch);
    }
    let nlen = n as usize;
    let mut payload: Vec<u8> = Vec::new();
    let mut j: usize = 0;
    while j < nlen
        invariant
            pos + 8 + nlen <= b@.len(),
            j <= nlen,
            payload@.len() == j,
            forall|t: int| 0 <= t < j ==> payload@[t] == b@[pos + 8 + t],
        decreases nlen - j,
    {
        proof {
            vstd::std_specs::vec::axiom_spec_len(b);
        }
        payload.push(b[pos + 8 + j]);
        j += 1;
    }
    proof {
        lemma_u64_bytes_roundtrip(payload@.len() as u64);
        assert(lenb@ =~= b@.subrange(pos as int, pos + 8));
        assert(u64_unbytes(lenb@) == n);
        assert(u64_bytes(payload@.len() as u64) =~= u64_bytes(n)) by {
            assert(payload@.len() == n);
        }
        assert(u64_bytes(n) == lenb@) by {
            lemma_bytes8_unbytes(lenb@);
        }
        assert(b@.subrange(pos as int, (pos + 8 + nlen) as int) =~= enc_seg(payload@));
    }
    Ok((payload, pos + 8 + nlen))
}

/// When the remaining bytes are a non-empty coded tail, the next two
/// framed segments are in bounds, spell the witness's first key and
/// value, the key is new, and a coded tail is left behind them.
pub proof fn lemma_coded_tail_step(b: Seq<u8>, pos: int, seen: Seq<Seq<u8>>)
    requires
        0 <= pos < b.len(),
        coded_tail(b.skip(pos), seen),
    ensures
        b.len() - pos >= 16,
        8 + u64_unbytes(b.subrange(pos, pos + 8)) + 8 <= b.len() - pos,
        ({
            let klen = u64_unbytes(b.subrange(pos, pos + 8)) as int;
            let k = b.subrange(pos + 8, pos + 8 + klen);
            let p2 = pos + 8 + klen;
            let vlen = u64_unbytes(b.subrange(p2, p2 + 8)) as int;
            let v = b.subrange(p2 + 8, p2 + 8 + vlen);
            let p3 = p2 + 8 + vlen;
            &&& 8 + vlen <= b.len() - p2
            &&& p3 <= b.len()
            &&& p3 > pos
            &&& !seen.contains(k)
            &&& coded_tail(b.skip(p3), seen.push(k))
        }),
{
    let s = b.skip(pos);
    let (ks, vs) = choose|ks: Seq<Seq<u8>>, vs: Seq<Seq<u8>>|
        #![trigger enc_entries(ks, vs)]
        ks.len() == vs.len() && distinct_keys(seen + ks) && (forall|i: int|
            0 <= i < ks.len() ==> #[trigger] ks[i].len() < 0x1_0000_0000_0000_0000) && (forall|
            i: int,
        |
            0 <= i < vs.len() ==> #[trigger] vs[i].len() < 0x1_0000_0000_0000_0000) && enc_entries(
            ks,
            vs,
        ) == s;
    assert(s.len() > 0);
    assert(ks.len() > 0) by {
        if ks.len() == 0 {
            assert(enc_entries(ks, vs) == Seq::<u8>::empty());
        }
    }
    let k0 = ks[0];
    let v0 = vs[0];
    let rest = enc_entries(ks.drop_first(), vs.drop_first());
    assert(s == enc_seg(k0) + enc_seg(v0) + rest);
    assert(s.len() == 16 + k0.len() + v0.len() + rest.len());
    lemma_u64_bytes_roundtrip(k0.len() as u64);
    lemma_u64_bytes_roundtrip(v0.len() as u64);
    assert(forall|i: int| 0 <= i < s.len() ==> s[i] == b[pos + i]);
    assert(b.subrange(pos, pos + 8) =~= u64_bytes(k0.len() as u64));
    assert(u64_unbytes(b.subrange(pos, pos + 8)) == k0.len());
    let klen = k0.len() as int;
    let p2 = pos + 8 + klen;
    assert(b.subrange(pos + 8, pos + 8 + klen) =~= k0) by {
        assert(forall|i: int|
            0 <= i < klen ==> #[trigger] b.subrange(pos + 8, pos + 8 + klen)[i] == s[8 + i]);
        assert(forall|i: int| 0 <= i < klen ==> #[trigger] s[8 + i] == enc_seg(k0)[8 + i]);
    }
    assert(b.subrange(p2, p2 + 8) =~= u64_bytes(v0.len() as u64)) by {
        assert(forall|i: int|
            0 <= i < 8 ==> #[trigger] b.subrange(p2, p2 + 8)[i] == s[8 + klen + i]);
    }
    assert(u64_unbytes(b.subrange(p2, p2 + 8)) == v0.len());
    let vlen = v0.len() as int;
    let p3 = p2 + 8 + vlen;
    assert(b.subrange(p2 + 8, p2 + 8 + vlen) =~= v0) by {
        assert(forall|i: int|
            0 <= i < vlen ==> #[trigger] b.subrange(p2 + 8, p2 + 8 + vlen)[i] == s[16 + klen + i]);
    }
    assert(!seen.contains(k0)) by {
        if seen.contains(k0) {
            let i = choose|i: int| 0 <= i < seen.len() && seen[i] == k0;
            assert((seen + ks)[i] == k0);
            assert((seen + ks)[seen.len() as int] == k0);
        }
    }
    assert(coded_tail(b.skip(p3), seen.push(k0))) by {
        let ks2 = ks.drop_first();
        let vs2 = vs.drop_first();
        assert(b.skip(p3) =~= rest) by {
            assert(forall|i: int| 0 <= i < rest.len() ==> #[trigger] b.skip(p3)[i] == s[16 + klen + vlen + i]);
        }
        assert(distinct_keys(seen.push(k0) + ks2)) by {
            assert(seen.push(k0) + ks2 =~= seen + ks);
        }
        assert(forall|i: int| 0 <= i < ks2.len() ==> #[trigger] ks2[i].len() < 0x1_0000_0000_0000_0000);
        assert(forall|i: int| 0 <= i < vs2.len() ==> #[trigger] vs2[i].len() < 0x1_0000_0000_0000_0000);
        assert(enc_entries(ks2, vs2) == b.skip(p3));
    }
    assert(b.subrange(pos + 8, pos + 8 + klen) == k0);
}

/// A value that travels as bytes, with its encoding pinned down in
/// specification. Contracts speak of values through their encodings.
pub trait ValueEnDe: Sized {
    /// The byte form of the value.
    spec fn spec_enc(self) -> Seq<u8>;

    /// Whether a byte string stands for some value.
    spec fn decodable(s: Seq<u8>) -> bool;

    /// An encoding always stands for a value.
    proof fn lemma_enc_decodable(self)
        ensures
            Self::decodable(self.spec_enc()),
    ;

    /// Writes the value out.
    fn encode(&self) -> (r: Vec<u8>)
        ensures
            r@ == self.spec_enc(),
    ;

    /// Reads a value back; the result's encoding is the input. Refused
    /// exactly when the bytes stand for no value.
    fn decode(bytes: &Vec<u8>) -> (r: Result<Self, Error>)
        ensures
            match r {
                Ok(v) => v.spec_enc() == bytes@,
                Err(e) => !Self::decodable(bytes@) && e == Error::ShapeMismatch,
            },
    ;
}

impl ValueEnDe for u8 {
    open spec fn spec_enc(self) -> Seq<u8> {
        seq![self]
    }

    open spec fn decodable(s: Seq<u8>) -> bool {
        s.len() == 1
    }

    proof fn lemma_enc_decodable(self) {
    }

    fn encode(&self) -> (r: Vec<u8>) {
        let mut v: Vec<u8> = Vec::new();
        v.push(*self);
        proof {
            assert(v@ =~= seq![*self]);
        }
        v
    }

    fn decode(bytes: &Vec<u8>) -> (r: Result<u8, Error>) {
        if bytes.len() == 1 {
            proof {
                assert(seq![bytes@[0]] =~= bytes@);
            }
            Ok(bytes[0])
        } else {
            Err(Error::ShapeMismatch)
        }
    }
}

impl ValueEnDe for u32 {
    open spec fn spec_enc(self) -> Seq<u8> {
        u64_bytes(self as u64).skip(4)
    }

    open spec fn decodable(s: Seq<u8>) -> bool {
        s.len() == 4
    }

    proof fn lemma_enc_decodable(self) {
    }

    fn encode(&self) -> (r: Vec<u8>) {
        let full = u64_to_bytes(*self as u64);
        let mut v: Vec<u8> = Vec::new();
        v.push(full[4]);
        v.push(full[5]);
        v.push(full[6]);
        v.push(full[7]);
        proof {
            assert(v@ =~= full@.skip(4));
        }
        v
    }

    fn decode(bytes: &Vec<u8>) -> (r: Result<u32, Error>) {
        if bytes.len() != 4 {
            return Err(Error::ShapeMismatch);
        }
        let n: u32 = ((bytes[0] as u32) << 24) | ((bytes[1] as u32) << 16) | ((bytes[2] as u32)
            << 8) | (bytes[3] as u32);
        proof {
            let b0 = bytes@[0];
            let b1 = bytes@[1];
            let b2 = bytes@[2];
            let b3 = bytes@[3];
            let m: u32 = ((b0 as u32) << 24) | ((b1 as u32) << 16) | ((b2 as u32) << 8) | (
            b3 as u32);
            assert(((m as u64) >> ((7 - 4) * 8)) as u8 == b0) by (bit_vector)
                requires
                    m == ((b0 as u32) << 24) | ((b1 as u32) << 16) | ((b2 as u32) << 8) | (
                    b3 as u32),
            ;
            assert(((m as u64) >> ((7 - 5) * 8)) as u8 == b1) by (bit_vector)
                requires
                    m == ((b0 as u32) << 24) | ((b1 as u32) << 16) | ((b2 as u32) << 8) | (
                    b3 as u32),
            ;
            assert(((m as u64) >> ((7 - 6) * 8)) as u8 == b2) by (bit_vector)
                requires
                    m == ((b0 as u32) << 24) | ((b1 as u32) << 16) | ((b2 as u32) << 8) | (
                    b3 as u32),
            ;
            assert(((m as u64) >> ((7 - 7) * 8)) as u8 == b3) by (bit_vector)
                requires
                    m == ((b0 as u32) << 24) | ((b1 as u32) << 16) | ((b2 as u32) << 8) | (
                    b3 as u32),
            ;
            assert(u64_bytes(m as u64).skip(4) =~= bytes@);
        }
        Ok(n)
    }
}

impl ValueEnDe for u64 {
    open spec fn spec_enc(self) -> Seq<u8> {
        u64_bytes(self)
    }

    open spec fn decodable(s: Seq<u8>) -> bool {
        s.len() == 8
    }

    proof fn lemma_enc_decodable(self) {
    }

    fn encode(&self) -> (r: Vec<u8>) {
        u64_to_bytes(*self)
    }

    fn decode(bytes: &Vec<u8>) -> (r: Result<u64, Error>) {
        if bytes.len() != 8 {
            return Err(Error::ShapeMismatch);
        }
        let n = u64_from_bytes(bytes);
        proof {
            lemma_u64_bytes_roundtrip(n);
            assert(u64_bytes(n) =~= bytes@) by {
                lemma_bytes8_unbytes(bytes@);
            }
        }
        Ok(n)
    }
}

/// Eight bytes are recovered exactly from the number they spell.
pub proof fn lemma_bytes8_unbytes(s: Seq<u8>)
    requires
        s.len() == 8,
    ensures
        u64_bytes(u64_unbytes(s)) == s,
{
    let b0 = s[0];
    let b1 = s[1];
    let b2 = s[2];
    let b3 = s[3];
    let b4 = s[4];
    let b5 = s[5];
    let b6 = s[6];
    let b7 = s[7];
    let x = u64_unbytes(s);
    assert((((b0 as u64) << 56) | ((b1 as u64) << 48) | ((b2 as u64) << 40) | ((b3 as u64) << 32)
        | ((b4 as u64) << 24) | ((b5 as u64) << 16) | ((b6 as u64) << 8) | (b7 as u64)) >> ((7 - 0)
        * 8) as u64 == b0 as u64) by (bit_vector);
    assert((((b0 as u64) << 56) | ((b1 as u64) << 48) | ((b2 as u64) << 40) | ((b3 as u64) << 32)
        | ((b4 as u64) << 24) | ((b5 as u64) << 16) | ((b6 as u64) << 8) | (b7 as u64)) >> ((7 - 1)
        * 8) as u64 == (b0 as u64) << 8 | b1 as u64) by (bit_vector);
    assert((x >> ((7 - 0) * 8)) as u8 == b0) by (bit_vector)
        requires
            x == ((b0 as u64) << 56) | ((b1 as u64) << 48) | ((b2 as u64) << 40) | ((b3 as u64)
                << 32) | ((b4 as u64) << 24) | ((b5 as u64) << 16) | ((b6 as u64) << 8) | (
            b7 as u64),
    ;
    assert((x >> ((7 - 1) * 8)) as u8 == b1) by (bit_vector)
        requires
            x == ((b0 as u64) << 56) | ((b1 as u64) << 48) | ((b2 as u64) << 40) | ((b3 as u64)
                << 32) | ((b4 as u64) << 24) | ((b5 as u64) << 16) | ((b6 as u64) << 8) | (
            b7 as u64),
    ;
    assert((x >> ((7 - 2) * 8)) as u8 == b2) by (bit_vector)
        requires
            x == ((b0 as u64) << 56) | ((b1 as u64) << 48) | ((b2 as u64) << 40) | ((b3 as u64)
                << 32) | ((b4 as u64) << 24) | ((b5 as u64) << 16) | ((b6 as u64) << 8) | (
            b7 as u64),
    ;
    assert((x >> ((7 - 3) * 8)) as u8 == b3) by (bit_vector)
        requires
            x == ((b0 as u64) << 56) | ((b1 as u64) << 48) | ((b2 as u64) << 40) | ((b3 as u64)
                << 32) | ((b4 as u64) << 24) | ((b5 as u64) << 16) | ((b6 as u64) << 8) | (
            b7 as u64),
    ;
    assert((x >> ((7 - 4) * 8)) as u8 == b4) by (bit_vector)
        requires
            x == ((b0 as u64) << 56) | ((b1 as u64) << 48) | ((b2 as u64) << 40) | ((b3 as u64)
                << 32) | ((b4 as u64) << 24) | ((b5 as u64) << 16) | ((b6 as u64) << 8) | (
            b7 as u64),
    ;
    assert((x >> ((7 - 5) * 8)) as u8 == b5) by (bit_vector)
        requires
            x == ((b0 as u64) << 56) | ((b1 as u64) << 48) | ((b2 as u64) << 40) | ((b3 as u64)
                << 32) | ((b4 as u64) << 24) | ((b5 as u64) << 16) | ((b6 as u64) << 8) | (
            b7 as u64),
    ;
    assert((x >> ((7 - 6) * 8)) as u8 == b6) by (bit_vector)
        requires
            x == ((b0 as u64) << 56) | ((b1 as u64) << 48) | ((b2 as u64) << 40) | ((b3 as u64)
                << 32) | ((b4 as u64) << 24) | ((b5 as u64) << 16) | ((b6 as u64) << 8) | (
            b7 as u64),
    ;
    assert((x >> ((7 - 7) * 8)) as u8 == b7) by (bit_vector)
        requires
            x == ((b0 as u64) << 56) | ((b1 as u64) << 48) | ((b2 as u64) << 40) | ((b3 as u64)
                << 32) | ((b4 as u64) << 24) | ((b5 as u64) << 16) | ((b6 as u64) << 8) | (
            b7 as u64),
    ;
    assert(u64_bytes(x) =~= s);
}

impl ValueEnDe for Vec<u8> {
    open spec fn spec_enc(self) -> Seq<u8> {
        self@
    }

    open spec fn decodable(s: Seq<u8>) -> bool {
        true
    }

    proof fn lemma_enc_decodable(self) {
    }

    fn encode(&self) -> (r: Vec<u8>) {
        bytes_clone(self)
    }

    fn decode(bytes: &Vec<u8>) -> (r: Result<Vec<u8>, Error>) {
        Ok(bytes_clone(bytes))
    }
}

} // verus!
