//! The copy-on-write overlay, at the level of arena nodes.
//!
//! A node holds its own entries in a prefixed instance, reads through its
//! parent when a key misses locally, and registers its children under byte
//! identifiers. This module defines the chain-lookup and subtree semantics
//! and proves the structural lemmas the node operations rest on; the public
//! snapshot types are built on top of it.

use crate::bytes::{bytes_clone, bytes_eq};
use crate::engine::{Db, Node};
use crate::error::Error;
use crate::kv::{assoc_view, lemma_assoc_absent, lemma_assoc_props, lemma_assoc_push, lemma_assoc_remove};
use crate::mapx::Mapx;
use vstd::prelude::*;

verus! {

/// The first value bound to `k` walking the parent chain up from `n`,
/// before any tombstone interpretation.
pub open spec fn chain_first(db: Db, n: u64, k: Seq<u8>) -> Option<Seq<u8>>
    decreases n,
{
    if db.data_of(n).contains_key(k) {
        Some(db.data_of(n)[k])
    } else {
        match db.node(n).parent {
            Some(p) => if p < n {
                chain_first(db, p, k)
            } else {
                None
            },
            None => None,
        }
    }
}

/// What a read of `k` at `n` returns: the first value on the chain, with
/// an empty value standing for a deleted key.
pub open spec fn chain_get(db: Db, n: u64, k: Seq<u8>) -> Option<Seq<u8>> {
    match chain_first(db, n, k) {
        Some(v) => if v.len() == 0 {
            None
        } else {
            Some(v)
        },
        None => None,
    }
}

/// The node `n` together with everything below it through child edges.
pub open spec fn subtree(db: Db, n: u64) -> Set<u64>
    decreases db.nodes.len() - n, 1int, 0int,
{
    if n < db.nodes.len() {
        kids_subtrees(db, n, db.node(n).kid_nids@.len() as int).insert(n)
    } else {
        Set::empty().insert(n)
    }
}

/// Union of the subtrees of the first `j` children of `n`.
pub open spec fn kids_subtrees(db: Db, n: u64, j: int) -> Set<u64>
    decreases db.nodes.len() - n, 0int, j,
{
    if n < db.nodes.len() && 0 < j && j <= db.node(n).kid_nids@.len() {
        let kid = db.node(n).kid_nids@[j - 1];
        kids_subtrees(db, n, j - 1).union(
            if n < kid && kid < db.nodes.len() {
                subtree(db, kid)
            } else {
                Set::empty()
            },
        )
    } else {
        Set::empty()
    }
}

/// A node holding nothing: no entries of its own and no children.
pub open spec fn node_cleared(db: Db, n: u64) -> bool {
    &&& db.data_of(n).dom() =~= Set::<Seq<u8>>::empty()
    &&& db.node(n).kid_nids@.len() == 0
    &&& db.node(n).kid_ids@.len() == 0
}

/// A node left with nothing at all: cleared and detached from its parent.
pub open spec fn node_dead(db: Db, n: u64) -> bool {
    &&& node_cleared(db, n)
    &&& db.node(n).parent is None
}

/// `p` is the data instance of some node in the subtree of `n`.
pub open spec fn subtree_data_prefix(db: Db, n: u64, p: u64) -> bool {
    exists|m: u64| #[trigger] subtree(db, n).contains(m) && db.node(m).data == p
}

/// A node is a member of its own subtree.
pub proof fn lemma_subtree_self(db: Db, n: u64)
    ensures
        subtree(db, n).contains(n),
{
}

/// A child's subtree sits inside its parent's.
pub proof fn lemma_kid_subtree(db: Db, n: u64, j: int)
    requires
        db.wf(),
        db.node_ok(n),
        0 <= j < db.node(n).kid_nids@.len(),
    ensures
        subtree(db, db.node(n).kid_nids@[j]).subset_of(subtree(db, n)),
{
    lemma_kid_subtree_upto(db, n, j, db.node(n).kid_nids@.len() as int);
}

proof fn lemma_kid_subtree_upto(db: Db, n: u64, j: int, m: int)
    requires
        db.wf(),
        db.node_ok(n),
        0 <= j < m,
        m <= db.node(n).kid_nids@.len(),
    ensures
        subtree(db, db.node(n).kid_nids@[j]).subset_of(kids_subtrees(db, n, m)),
    decreases m,
{
    assert(db.node_wf(n as int));
    if j < m - 1 {
        lemma_kid_subtree_upto(db, n, j, m - 1);
    }
}

/// Every subtree member lies at or below its root in the arena, and within
/// the arena bounds.
pub proof fn lemma_subtree_floor(db: Db, n: u64, m: u64)
    requires
        db.wf(),
        db.node_ok(n),
        subtree(db, n).contains(m),
    ensures
        n <= m < db.nodes.len(),
    decreases db.nodes.len() - n, 1int, 0int,
{
    if m != n {
        lemma_kids_floor(db, n, db.node(n).kid_nids@.len() as int, m);
    }
}

proof fn lemma_kids_floor(db: Db, n: u64, j: int, m: u64)
    requires
        db.wf(),
        db.node_ok(n),
        0 <= j <= db.node(n).kid_nids@.len(),
        kids_subtrees(db, n, j).contains(m),
    ensures
        n < m < db.nodes.len(),
    decreases db.nodes.len() - n, 0int, j,
{
    assert(db.node_wf(n as int));
    if j > 0 {
        let kid = db.node(n).kid_nids@[j - 1];
        if kids_subtrees(db, n, j - 1).contains(m) {
            lemma_kids_floor(db, n, j - 1, m);
        } else {
            lemma_subtree_floor(db, kid, m);
        }
    }
}

/// A subtree member other than the root is somewhere registered as a child
/// of another subtree member.
pub proof fn lemma_subtree_incoming(db: Db, n: u64, m: u64)
    requires
        db.wf(),
        db.node_ok(n),
        subtree(db, n).contains(m),
        m != n,
    ensures
        exists|x: u64, j: int|
            #![auto]
            subtree(db, n).contains(x) && x < db.nodes.len() && 0 <= j < db.node(
                x,
            ).kid_nids@.len() && db.node(x).kid_nids@[j] == m,
    decreases db.nodes.len() - n,
{
    assert(db.node_wf(n as int));
    let j0 = choose|j0: int|
        0 <= j0 < db.node(n).kid_nids@.len() && #[trigger] subtree(
            db,
            db.node(n).kid_nids@[j0],
        ).contains(m);
    assert(exists|j0: int|
        0 <= j0 < db.node(n).kid_nids@.len() && #[trigger] subtree(
            db,
            db.node(n).kid_nids@[j0],
        ).contains(m)) by {
        lemma_kids_member(db, n, db.node(n).kid_nids@.len() as int, m);
    }
    let kid = db.node(n).kid_nids@[j0];
    lemma_kid_subtree(db, n, j0);
    if m == kid {
        assert(subtree(db, n).contains(n) && 0 <= j0 < db.node(n).kid_nids@.len() && db.node(
            n,
        ).kid_nids@[j0] == m);
    } else {
        lemma_subtree_floor(db, n, kid);
        lemma_subtree_incoming(db, kid, m);
        let (x, j) = choose|x: u64, j: int|
            #![auto]
            subtree(db, kid).contains(x) && x < db.nodes.len() && 0 <= j < db.node(
                x,
            ).kid_nids@.len() && db.node(x).kid_nids@[j] == m;
        assert(subtree(db, n).contains(x) && x < db.nodes.len() && 0 <= j < db.node(
            x,
        ).kid_nids@.len() && db.node(x).kid_nids@[j] == m);
    }
}

proof fn lemma_kids_member(db: Db, n: u64, j: int, m: u64)
    requires
        db.wf(),
        db.node_ok(n),
        0 <= j <= db.node(n).kid_nids@.len(),
        kids_subtrees(db, n, j).contains(m),
    ensures
        exists|j0: int|
            0 <= j0 < db.node(n).kid_nids@.len() && #[trigger] subtree(
                db,
                db.node(n).kid_nids@[j0],
            ).contains(m),
    decreases j,
{
    assert(db.node_wf(n as int));
    if j > 0 {
        let kid = db.node(n).kid_nids@[j - 1];
        if kids_subtrees(db, n, j - 1).contains(m) {
            lemma_kids_member(db, n, j - 1, m);
        } else {
            assert(subtree(db, db.node(n).kid_nids@[j - 1]).contains(m));
        }
    }
}

/// If a registered child of `a` lies in the subtree of `b`, then either
/// that child is `b` itself or `a` lies in the subtree of `b`: child slots
/// are unique, so the only way down to the child passes through `a`.
pub proof fn lemma_parent_in_subtree(db: Db, a: u64, i: int, b: u64)
    requires
        db.wf(),
        db.node_ok(a),
        db.node_ok(b),
        0 <= i < db.node(a).kid_nids@.len(),
        subtree(db, b).contains(db.node(a).kid_nids@[i]),
        db.node(a).kid_nids@[i] != b,
    ensures
        subtree(db, b).contains(a),
{
    let c = db.node(a).kid_nids@[i];
    lemma_subtree_incoming(db, b, c);
    let (x, j) = choose|x: u64, j: int|
        #![auto]
        subtree(db, b).contains(x) && x < db.nodes.len() && 0 <= j < db.node(x).kid_nids@.len()
            && db.node(x).kid_nids@[j] == c;
    assert(x == a) by {
        if x != a || j != i {
            assert(db.nodes[x as int].kid_nids@[j] != db.nodes[a as int].kid_nids@[i]);
        }
    }
}

/// Two subtrees meet only if one root lies in the other's subtree.
pub proof fn lemma_subtree_overlap(db: Db, a: u64, b: u64, m: u64)
    requires
        db.wf(),
        db.node_ok(a),
        db.node_ok(b),
        subtree(db, a).contains(m),
        subtree(db, b).contains(m),
    ensures
        subtree(db, b).contains(a) || subtree(db, a).contains(b),
    decreases db.nodes.len() - a,
{
    if m == a {
        assert(subtree(db, b).contains(a));
    } else if m == b {
        assert(subtree(db, a).contains(b));
    } else {
        assert(db.node_wf(a as int));
        assert(exists|j0: int|
            0 <= j0 < db.node(a).kid_nids@.len() && #[trigger] subtree(
                db,
                db.node(a).kid_nids@[j0],
            ).contains(m)) by {
            lemma_kids_member(db, a, db.node(a).kid_nids@.len() as int, m);
        }
        let j0 = choose|j0: int|
            0 <= j0 < db.node(a).kid_nids@.len() && #[trigger] subtree(
                db,
                db.node(a).kid_nids@[j0],
            ).contains(m);
        let ka = db.node(a).kid_nids@[j0];
        lemma_kid_subtree(db, a, j0);
        assert(subtree(db, a).contains(ka)) by {
            lemma_subtree_self(db, ka);
        }
        lemma_subtree_floor(db, a, ka);
        lemma_subtree_overlap(db, ka, b, m);
        if subtree(db, ka).contains(b) {
            assert(subtree(db, a).contains(b));
        } else {
            if ka == b {
                assert(subtree(db, a).contains(b));
            } else {
                lemma_parent_in_subtree(db, a, j0, b);
            }
        }
    }
}

/// Subtrees of two distinct child slots of the same node are disjoint.
pub proof fn lemma_sibling_disjoint(db: Db, n: u64, i: int, j: int)
    requires
        db.wf(),
        db.node_ok(n),
        0 <= i < db.node(n).kid_nids@.len(),
        0 <= j < db.node(n).kid_nids@.len(),
        i != j,
    ensures
        subtree(db, db.node(n).kid_nids@[i]).disjoint(subtree(db, db.node(n).kid_nids@[j])),
{
    let c1 = db.node(n).kid_nids@[i];
    let c2 = db.node(n).kid_nids@[j];
    assert(db.node_wf(n as int));
    assert(c1 != c2);
    assert forall|m: u64|
        #[trigger] subtree(db, c1).contains(m) implies !subtree(db, c2).contains(m) by {
        if subtree(db, c2).contains(m) {
            lemma_subtree_overlap(db, c1, c2, m);
            if subtree(db, c2).contains(c1) {
                lemma_parent_in_subtree(db, n, i, c2);
                lemma_subtree_floor(db, c2, n);
            } else {
                lemma_parent_in_subtree(db, n, j, c1);
                lemma_subtree_floor(db, c1, n);
            }
        }
    }
}

/// A subtree is fixed by the nodes it contains: if every node of the
/// subtree reads the same in two stores of equal arena size, the subtree
/// is the same in both.
pub proof fn lemma_subtree_stable(db1: Db, db2: Db, n: u64)
    requires
        db1.wf(),
        db1.node_ok(n),
        db2.nodes.len() == db1.nodes.len(),
        forall|m: u64|
            #[trigger] subtree(db1, n).contains(m) ==> db2.nodes[m as int] == db1.nodes[m as int],
    ensures
        subtree(db2, n) == subtree(db1, n),
    decreases db1.nodes.len() - n, 1int, 0int,
{
    assert(db1.node_wf(n as int));
    assert(subtree(db1, n).contains(n));
    assert(db2.node(n) == db1.node(n));
    assert forall|j: int|
        0 <= j < db1.node(n).kid_nids@.len() implies subtree(db1, db1.node(n).kid_nids@[j]).subset_of(
        subtree(db1, n),
    ) by {
        lemma_kid_subtree(db1, n, j);
    }
    lemma_kids_stable(db1, db2, n, db1.node(n).kid_nids@.len() as int);
    assert(subtree(db2, n) =~= subtree(db1, n));
}

proof fn lemma_kids_stable(db1: Db, db2: Db, n: u64, j: int)
    requires
        db1.wf(),
        db1.node_ok(n),
        db2.nodes.len() == db1.nodes.len(),
        db2.node(n) == db1.node(n),
        0 <= j <= db1.node(n).kid_nids@.len(),
        forall|m: u64|
            #[trigger] subtree(db1, n).contains(m) ==> db2.nodes[m as int] == db1.nodes[m as int],
    ensures
        kids_subtrees(db2, n, j) == kids_subtrees(db1, n, j),
    decreases db1.nodes.len() - n, 0int, j,
{
    assert(db1.node_wf(n as int));
    if j > 0 {
        lemma_kids_stable(db1, db2, n, j - 1);
        let kid = db1.node(n).kid_nids@[j - 1];
        lemma_kid_subtree(db1, n, j - 1);
        assert forall|m: u64|
            #[trigger] subtree(db1, kid).contains(m) implies db2.nodes[m as int] == db1.nodes[m as int] by {
            assert(subtree(db1, n).contains(m));
        }
        lemma_subtree_stable(db1, db2, kid);
        assert(kids_subtrees(db2, n, j) =~= kids_subtrees(db1, n, j));
    } else {
        assert(kids_subtrees(db2, n, j) =~= kids_subtrees(db1, n, j));
    }
}

/// Executable copy of an index column.
fn nids_clone(v: &Vec<u64>) -> (r: Vec<u64>)
    ensures
        r@ == v@,
{
    let mut r: Vec<u64> = Vec::new();
    let mut i: usize = 0;
    while i < v.len()
        invariant
            i <= v@.len(),
            r@.len() == i,
            forall|j: int| 0 <= j < i ==> r@[j] == v@[j],
        decreases v@.len() - i,
    {
        r.push(v[i]);
        i += 1;
    }
    proof {
        assert(r@ =~= v@);
    }
    r
}

/// The child slot of `n` registered under `id`, if any.
pub(crate) fn kid_find(db: &Db, n: u64, id: &Vec<u8>) -> (r: Option<usize>)
    requires
        db.wf(),
        db.node_ok(n),
    ensures
        match r {
            Some(i) => i < db.node(n).kid_nids@.len() && db.node(n).kid_ids.deep_view()[i as int]
                == id@ && db.kids(n).contains_key(id@) && db.kids(n)[id@] == db.node(
                n,
            ).kid_nids@[i as int],
            None => !db.kids(n).contains_key(id@),
        },
{
    proof {
        assert(db.node_wf(n as int));
        lemma_assoc_props(db.node(n).kid_ids.deep_view(), db.node(n).kid_nids@);
    }
    let node = &db.nodes[n as usize];
    let mut i: usize = 0;
    while i < node.kid_ids.len()
        invariant
            db.wf(),
            db.node_ok(n),
            node == &db.nodes[n as int],
            node.kid_ids.len() == node.kid_nids.len(),
            i <= node.kid_ids@.len(),
            forall|j: int| 0 <= j < i ==> node.kid_ids.deep_view()[j] != id@,
        decreases node.kid_ids@.len() - i,
    {
        proof {
            assert(node.kid_ids@[i as int].deep_view() =~= node.kid_ids@[i as int]@);
        }
        if bytes_eq(&node.kid_ids[i], id) {
            proof {
                assert(db.node_wf(n as int));
                lemma_assoc_props(db.node(n).kid_ids.deep_view(), db.node(n).kid_nids@);
            }
            return Some(i);
        }
        i += 1;
    }
    proof {
        assert(db.node_wf(n as int));
        lemma_assoc_absent(db.node(n).kid_ids.deep_view(), db.node(n).kid_nids@, id@);
    }
    None
}

/// Whether `n` has a child registered under `id`.
pub(crate) fn has_kid(db: &Db, n: u64, id: &Vec<u8>) -> (r: bool)
    requires
        db.wf(),
        db.node_ok(n),
    ensures
        r == db.kids(n).contains_key(id@),
{
    match kid_find(db, n, id) {
        Some(_) => true,
        None => false,
    }
}

/// Creates a node with its own fresh data instance, registered under `id`
/// with `parent` when one is given. Registration is refused when the
/// parent already has a child under `id`.
pub(crate) fn node_new(db: &mut Db, id: &Vec<u8>, parent: Option<u64>) -> (r: Result<u64, Error>)
    requires
        old(db).wf(),
        old(db).insts.len() < u64::MAX,
        old(db).nodes.len() < u64::MAX,
        parent is Some ==> old(db).node_ok(parent.unwrap()),
    ensures
        final(db).wf(),
        match r {
            Ok(n) => {
                &&& (parent is Some ==> !old(db).kids(parent.unwrap()).contains_key(id@))
                &&& n == old(db).nodes.len()
                &&& final(db).nodes.len() == old(db).nodes.len() + 1
                &&& final(db).insts.len() == old(db).insts.len() + 1
                &&& final(db).node(n).id@ == id@
                &&& final(db).node(n).parent == parent
                &&& final(db).node(n).kid_nids@.len() == 0
                &&& final(db).node(n).kid_ids@.len() == 0
                &&& final(db).node(n).data == old(db).insts.len()
                &&& final(db).data_of(n) == Map::<Seq<u8>, Seq<u8>>::empty()
                &&& (match parent {
                    Some(p) => final(db).kids(p) == old(db).kids(p).insert(id@, n) && forall|
                        m: u64,
                    |
                        m < old(db).nodes.len() && m != p ==> final(db).nodes[m as int] == old(
                            db,
                        ).nodes[m as int],
                    None => forall|m: u64|
                        m < old(db).nodes.len() ==> final(db).nodes[m as int] == old(
                            db,
                        ).nodes[m as int],
                })
                &&& (parent is Some ==> {
                    let p = parent.unwrap();
                    final(db).node(p).id == old(db).node(p).id && final(db).node(p).data == old(
                        db,
                    ).node(p).data && final(db).node(p).parent == old(db).node(p).parent
                })
                &&& forall|q: u64|
                    q < old(db).insts.len() ==> final(db).insts[q as int] == old(db).insts[q as int]
            },
            Err(e) => {
                &&& e == Error::AlreadyExists
                &&& parent is Some
                &&& old(db).kids(parent.unwrap()).contains_key(id@)
                &&& *final(db) == *old(db)
            },
        },
{
    match parent {
        Some(p) => {
            if has_kid(db, p, id) {
                return Err(Error::AlreadyExists);
            }
        },
        None => {},
    }
    let data = db.alloc_prefix();
    let n = db.nodes.len() as u64;
    let ghost mid = *db;
    db.nodes.push(
        Node { id: bytes_clone(id), data, parent, kid_ids: Vec::new(), kid_nids: Vec::new() },
    );
    proof {
        assert forall|i: int| 0 <= i < db.nodes.len() implies db.node_wf(i) by {
            if i < n {
                assert(mid.node_wf(i));
            }
        }
        assert forall|i: int, j: int|
            0 <= i < db.nodes.len() && 0 <= j < db.nodes.len() && i != j implies db.nodes[i].data
            != db.nodes[j].data by {
            if i == n as int {
                assert(old(db).node_wf(j));
            } else if j == n as int {
                assert(old(db).node_wf(i));
            }
        }
        assert(db.kid_slots_injective()) by {
            assert forall|a: int, i: int, b: int, j: int|
                0 <= a < db.nodes.len() && 0 <= i < db.nodes[a].kid_nids.len() && 0 <= b
                    < db.nodes.len() && 0 <= j < db.nodes[b].kid_nids.len() && (a != b || i != j)
                    implies #[trigger] db.nodes[a].kid_nids@[i] != #[trigger] db.nodes[b].kid_nids@[j] by {
                assert(a != n as int && b != n as int);
                assert(db.nodes[a].kid_nids@[i] == mid.nodes[a].kid_nids@[i]);
                assert(db.nodes[b].kid_nids@[j] == mid.nodes[b].kid_nids@[j]);
            }
        }
        assert(db.wf());
    }
    match parent {
        Some(p) => {
            let ghost pre = *db;
            let id2 = bytes_clone(id);
            let pnode = &mut db.nodes[p as usize];
            pnode.kid_ids.push(id2);
            pnode.kid_nids.push(n);
            proof {
                assert(pre.node_wf(p as int));
                assert(db.nodes[p as int].kid_ids.deep_view() =~~= pre.node(
                    p,
                ).kid_ids.deep_view().push(id@));
                assert(db.nodes[p as int].kid_nids@ =~= pre.node(p).kid_nids@.push(n));
                assert(pre.kids(p) == old(db).kids(p)) by {
                    assert(pre.node(p).kid_ids == old(db).node(p).kid_ids);
                    assert(pre.node(p).kid_nids == old(db).node(p).kid_nids);
                }
                lemma_assoc_push(pre.node(p).kid_ids.deep_view(), pre.node(p).kid_nids@, id@, n);
                assert(db.kids(p) == old(db).kids(p).insert(id@, n));
                // distinctness of the grown id column
                lemma_assoc_props(pre.node(p).kid_ids.deep_view(), pre.node(p).kid_nids@);
                assert(pre.node_wf(p as int));
                assert forall|a: int, b: int|
                    0 <= a < b < db.nodes[p as int].kid_ids.deep_view().len() implies db.nodes[p as int].kid_ids.deep_view()[a]
                    != db.nodes[p as int].kid_ids.deep_view()[b] by {
                    if b == db.nodes[p as int].kid_ids.deep_view().len() - 1 {
                        assert(pre.kids(p).contains_key(pre.node(p).kid_ids.deep_view()[a]));
                    }
                }
                assert forall|i: int| 0 <= i < db.nodes.len() implies db.node_wf(i) by {
                    assert(pre.node_wf(i));
                    if i == p {
                        assert(forall|j: int|
                            0 <= j < pre.node(p).kid_nids@.len() ==> db.nodes[p as int].kid_nids@[j]
                                == pre.node(p).kid_nids@[j]);
                    }
                }
                assert(db.kid_slots_injective()) by {
                    assert forall|a: int, i: int, b: int, j: int|
                        0 <= a < db.nodes.len() && 0 <= i < db.nodes[a].kid_nids.len() && 0 <= b
                            < db.nodes.len() && 0 <= j < db.nodes[b].kid_nids.len() && (a != b || i
                            != j) implies #[trigger] db.nodes[a].kid_nids@[i]
                        != #[trigger] db.nodes[b].kid_nids@[j] by {
                        let last = pre.node(p).kid_nids@.len() as int;
                        if a == p && i == last {
                            assert(db.nodes[a].kid_nids@[i] == n);
                            assert(db.nodes[b].kid_nids@[j] == old(db).nodes[b].kid_nids@[j]);
                            assert(old(db).node_wf(b));
                        } else if b == p && j == last {
                            assert(db.nodes[b].kid_nids@[j] == n);
                            assert(db.nodes[a].kid_nids@[i] == old(db).nodes[a].kid_nids@[i]);
                            assert(old(db).node_wf(a));
                        } else {
                            assert(db.nodes[a].kid_nids@[i] == old(db).nodes[a].kid_nids@[i]);
                            assert(db.nodes[b].kid_nids@[j] == old(db).nodes[b].kid_nids@[j]);
                        }
                    }
                }
                assert(db.wf());
            }
            Ok(n)
        },
        None => Ok(n),
    }
}

/// `m` lies in the subtree of one of `n`'s registered children.
pub open spec fn kids_member(db: Db, n: u64, m: u64) -> bool {
    kids_subtrees(db, n, db.node(n).kid_nids@.len() as int).contains(m)
}

/// `p` is the data instance of a node below one of `n`'s children.
pub open spec fn kids_data_prefix(db: Db, n: u64, p: u64) -> bool {
    exists|m: u64| #[trigger] kids_member(db, n, m) && db.node(m).data == p
}

/// `c` is registered as a child of nothing.
pub open spec fn unregistered(db: Db, c: u64) -> bool {
    forall|a: int, i: int|
        0 <= a < db.nodes.len() && 0 <= i < db.nodes[a].kid_nids.len()
            ==> #[trigger] db.nodes[a].kid_nids@[i] != c
}

/// Clears a node and everything below it: entries gone, children
/// unregistered and themselves cleared the same way. With `cut`, the
/// parent links of the whole subtree are severed too; without it every
/// parent link in the store is left as it was, so stale handles below
/// still read through to their old ancestors. Nothing outside the node's
/// subtree is touched.
pub(crate) fn raze_node(db: &mut Db, n: u64, cut: bool)
    requires
        old(db).wf(),
        old(db).node_ok(n),
    ensures
        final(db).wf(),
        final(db).insts.len() == old(db).insts.len(),
        final(db).nodes.len() == old(db).nodes.len(),
        forall|m: u64|
            m < old(db).nodes.len() && !subtree(*old(db), n).contains(m)
                ==> final(db).nodes[m as int] == old(db).nodes[m as int],
        forall|m: u64| #[trigger] subtree(*old(db), n).contains(m) ==> node_cleared(*final(db), m),
        cut ==> forall|m: u64|
            #[trigger] subtree(*old(db), n).contains(m) ==> final(db).node(m).parent is None,
        !cut ==> forall|m: u64|
            m < old(db).nodes.len() ==> final(db).nodes[m as int].parent == old(
                db,
            ).nodes[m as int].parent,
        forall|p: u64|
            p < old(db).insts.len() && !subtree_data_prefix(*old(db), n, p)
                ==> final(db).insts[p as int] == old(db).insts[p as int],
        forall|m: u64|
            m < old(db).nodes.len() ==> final(db).nodes[m as int].id == old(db).nodes[m as int].id
                && final(db).nodes[m as int].data == old(db).nodes[m as int].data,
    decreases db.nodes.len() - n, 1int,
{
    let ghost db0 = *old(db);
    proof {
        assert(db0.node_wf(n as int));
        assert(subtree(db0, n).contains(n));
    }
    // clear this node's own entries
    let data_pfx = db.nodes[n as usize].data;
    let hdr = Mapx::from_raw(data_pfx);
    hdr.clear(db);
    // cut the parent link if asked to
    let ghost mid0 = *db;
    if cut {
        let node = &mut db.nodes[n as usize];
        node.parent = None;
        proof {
            assert forall|i: int| 0 <= i < db.nodes.len() implies db.node_wf(i) by {
                assert(mid0.node_wf(i));
            }
            assert(db.kid_slots_injective()) by {
                assert forall|a: int, i: int, b: int, j: int|
                    0 <= a < db.nodes.len() && 0 <= i < db.nodes[a].kid_nids.len() && 0 <= b
                        < db.nodes.len() && 0 <= j < db.nodes[b].kid_nids.len() && (a != b || i
                        != j) implies #[trigger] db.nodes[a].kid_nids@[i]
                    != #[trigger] db.nodes[b].kid_nids@[j] by {
                    assert(db.nodes[a].kid_nids@[i] == mid0.nodes[a].kid_nids@[i]);
                    assert(db.nodes[b].kid_nids@[j] == mid0.nodes[b].kid_nids@[j]);
                }
            }
            assert(db.wf());
        }
    }
    let ghost mid1 = *db;
    proof {
        assert(db.node(n).kid_nids@ == db0.node(n).kid_nids@);
        assert forall|m: u64| #[trigger] kids_member(db0, n, m) implies mid1.nodes[m as int]
            == db0.nodes[m as int] by {
            lemma_kids_floor(db0, n, db0.node(n).kid_nids@.len() as int, m);
        }
        lemma_kids_set_stable(db0, mid1, n);
    }
    raze_kids(db, n, cut);
    proof {
        // relate the kid set of the intermediate state back to the entry
        // state, and assemble the whole-subtree claims
        assert forall|m: u64| #[trigger] subtree(db0, n).contains(m) implies node_cleared(
            *db,
            m,
        ) && (cut ==> db.node(m).parent is None) by {
            if m == n {
                assert(db.node(n).data == db0.node(n).data);
                assert(!kids_data_prefix(mid1, n, db0.node(n).data)) by {
                    if kids_data_prefix(mid1, n, db0.node(n).data) {
                        let m2 = choose|m2: u64|
                            #[trigger] kids_member(mid1, n, m2) && mid1.node(m2).data == db0.node(
                                n,
                            ).data;
                        lemma_kids_floor(db0, n, db0.node(n).kid_nids@.len() as int, m2);
                        assert(db0.nodes[m2 as int].data != db0.nodes[n as int].data);
                    }
                }
                assert(db.insts[db0.node(n).data as int] == mid1.insts[db0.node(n).data as int]);
            } else {
                lemma_kids_member(db0, n, db0.node(n).kid_nids@.len() as int, m);
                let j0 = choose|j0: int|
                    0 <= j0 < db0.node(n).kid_nids@.len() && #[trigger] subtree(
                        db0,
                        db0.node(n).kid_nids@[j0],
                    ).contains(m);
                lemma_kid_subtree_upto(db0, n, j0, db0.node(n).kid_nids@.len() as int);
                assert(kids_member(db0, n, m));
                assert(kids_member(mid1, n, m));
            }
        }
        assert forall|m: u64|
            m < db0.nodes.len() && !subtree(db0, n).contains(m) implies db.nodes[m as int]
            == db0.nodes[m as int] by {
            assert(!kids_member(mid1, n, m)) by {
                if kids_member(mid1, n, m) {
                    lemma_kids_member(db0, n, db0.node(n).kid_nids@.len() as int, m);
                    let j0 = choose|j0: int|
                        0 <= j0 < db0.node(n).kid_nids@.len() && #[trigger] subtree(
                            db0,
                            db0.node(n).kid_nids@[j0],
                        ).contains(m);
                    lemma_kid_subtree(db0, n, j0);
                }
            }
        }
        assert forall|p: u64|
            p < db0.insts.len() && !subtree_data_prefix(db0, n, p) implies db.insts[p as int]
            == db0.insts[p as int] by {
            assert(!kids_data_prefix(mid1, n, p)) by {
                if kids_data_prefix(mid1, n, p) {
                    let m2 = choose|m2: u64|
                        #[trigger] kids_member(mid1, n, m2) && mid1.node(m2).data == p;
                    lemma_kids_member(db0, n, db0.node(n).kid_nids@.len() as int, m2);
                    let j0 = choose|j0: int|
                        0 <= j0 < db0.node(n).kid_nids@.len() && #[trigger] subtree(
                            db0,
                            db0.node(n).kid_nids@[j0],
                        ).contains(m2);
                    lemma_kid_subtree(db0, n, j0);
                    assert(subtree(db0, n).contains(m2) && db0.node(m2).data == p);
                }
            }
            assert(p != db0.node(n).data) by {
                assert(subtree_data_prefix(db0, n, db0.node(n).data)) by {
                    assert(subtree(db0, n).contains(n) && db0.node(n).data == db0.node(n).data);
                }
            }
        }
    }
}

/// The kid set over a fixed registry is stable when the members are
/// unchanged, even if the owner's other fields moved.
proof fn lemma_kids_set_stable(db1: Db, db2: Db, n: u64)
    requires
        db1.wf(),
        db1.node_ok(n),
        db2.nodes.len() == db1.nodes.len(),
        db2.node(n).kid_nids@ == db1.node(n).kid_nids@,
        forall|m: u64|
            #[trigger] kids_member(db1, n, m) ==> db2.nodes[m as int] == db1.nodes[m as int],
    ensures
        forall|m: u64| kids_member(db2, n, m) == kids_member(db1, n, m),
        forall|j: int|
            0 <= j < db1.node(n).kid_nids@.len() ==> subtree(db2, #[trigger] db1.node(
                n,
            ).kid_nids@[j]) == subtree(db1, db1.node(n).kid_nids@[j]),
{
    assert(db1.node_wf(n as int));
    assert forall|j: int| 0 <= j < db1.node(n).kid_nids@.len() implies subtree(
        db2,
        #[trigger] db1.node(n).kid_nids@[j],
    ) == subtree(db1, db1.node(n).kid_nids@[j]) by {
        let kid = db1.node(n).kid_nids@[j];
        lemma_kid_subtree_upto(db1, n, j, db1.node(n).kid_nids@.len() as int);
        assert forall|m: u64| #[trigger] subtree(db1, kid).contains(m) implies db2.nodes[m as int]
            == db1.nodes[m as int] by {
            assert(kids_member(db1, n, m));
        }
        lemma_subtree_stable(db1, db2, kid);
    }
    assert forall|m: u64| kids_member(db2, n, m) == kids_member(db1, n, m) by {
        lemma_kids_sets_eq(db1, db2, n, db1.node(n).kid_nids@.len() as int);
    }
}

proof fn lemma_kids_sets_eq(db1: Db, db2: Db, n: u64, j: int)
    requires
        db1.wf(),
        db1.node_ok(n),
        db2.nodes.len() == db1.nodes.len(),
        db2.node(n).kid_nids@ == db1.node(n).kid_nids@,
        0 <= j <= db1.node(n).kid_nids@.len(),
        forall|i: int|
            0 <= i < db1.node(n).kid_nids@.len() ==> subtree(db2, #[trigger] db1.node(
                n,
            ).kid_nids@[i]) == subtree(db1, db1.node(n).kid_nids@[i]),
    ensures
        kids_subtrees(db2, n, j) == kids_subtrees(db1, n, j),
    decreases j,
{
    assert(db1.node_wf(n as int));
    if j > 0 {
        lemma_kids_sets_eq(db1, db2, n, j - 1);
        assert(kids_subtrees(db2, n, j) =~= kids_subtrees(db1, n, j));
    } else {
        assert(kids_subtrees(db2, n, j) =~= kids_subtrees(db1, n, j));
    }
}

/// Empties the children registry of `n` and clears every subtree below
/// it; the node's own entries, parent and identity stay.
#[verifier::loop_isolation(false)]
pub(crate) fn raze_kids(db: &mut Db, n: u64, cut: bool)
    requires
        old(db).wf(),
        old(db).node_ok(n),
    ensures
        final(db).wf(),
        final(db).insts.len() == old(db).insts.len(),
        final(db).nodes.len() == old(db).nodes.len(),
        final(db).node(n).id == old(db).node(n).id,
        final(db).node(n).data == old(db).node(n).data,
        final(db).node(n).parent == old(db).node(n).parent,
        final(db).node(n).kid_nids@.len() == 0,
        final(db).node(n).kid_ids@.len() == 0,
        forall|m: u64|
            m < old(db).nodes.len() && m != n && !kids_member(*old(db), n, m)
                ==> final(db).nodes[m as int] == old(db).nodes[m as int],
        forall|m: u64| #[trigger] kids_member(*old(db), n, m) ==> node_cleared(*final(db), m),
        cut ==> forall|m: u64|
            #[trigger] kids_member(*old(db), n, m) ==> final(db).node(m).parent is None,
        !cut ==> forall|m: u64|
            m < old(db).nodes.len() ==> final(db).nodes[m as int].parent == old(
                db,
            ).nodes[m as int].parent,
        forall|p: u64|
            p < old(db).insts.len() && !kids_data_prefix(*old(db), n, p)
                ==> final(db).insts[p as int] == old(db).insts[p as int],
        forall|m: u64|
            m < old(db).nodes.len() ==> final(db).nodes[m as int].id == old(db).nodes[m as int].id
                && final(db).nodes[m as int].data == old(db).nodes[m as int].data,
    decreases db.nodes.len() - n, 0int,
{
    let ghost db0 = *old(db);
    proof {
        assert(db0.node_wf(n as int));
    }
    let node = &mut db.nodes[n as usize];
    node.kid_ids = Vec::new();
    let kids = nids_clone(&node.kid_nids);
    node.kid_nids = Vec::new();
    proof {
        assert forall|i: int| 0 <= i < db.nodes.len() implies db.node_wf(i) by {
            assert(db0.node_wf(i));
        }
        assert(db.kid_slots_injective()) by {
            assert forall|a: int, i: int, b: int, j: int|
                0 <= a < db.nodes.len() && 0 <= i < db.nodes[a].kid_nids.len() && 0 <= b
                    < db.nodes.len() && 0 <= j < db.nodes[b].kid_nids.len() && (a != b || i != j)
                    implies #[trigger] db.nodes[a].kid_nids@[i] != #[trigger] db.nodes[b].kid_nids@[j] by {
                assert(db.nodes[a].kid_nids@[i] == db0.nodes[a].kid_nids@[i]);
                assert(db.nodes[b].kid_nids@[j] == db0.nodes[b].kid_nids@[j]);
            }
        }
        assert(db.wf());
        assert(kids@ == db0.node(n).kid_nids@);
        // each child subtree, as of entry, is so far intact
        assert forall|j: int, m: u64|
            0 <= j < kids@.len() && #[trigger] subtree(db0, kids@[j]).contains(m) implies db.nodes[m as int]
            == db0.nodes[m as int] by {
            lemma_kid_subtree_upto(db0, n, j, db0.node(n).kid_nids@.len() as int);
            lemma_kids_floor(db0, n, db0.node(n).kid_nids@.len() as int, m);
        }
    }
    let mut i: usize = 0;
    while i < kids.len()
        invariant
            db.wf(),
            db.insts.len() == db0.insts.len(),
            db.nodes.len() == db0.nodes.len(),
            db0.wf(),
            db0.node_ok(n),
            i <= kids@.len(),
            kids@ == db0.node(n).kid_nids@,
            db.node(n).id == db0.node(n).id,
            db.node(n).data == db0.node(n).data,
            db.node(n).parent == db0.node(n).parent,
            db.node(n).kid_nids@.len() == 0,
            db.node(n).kid_ids@.len() == 0,
            cut ==> forall|j: int, m: u64|
                0 <= j < i && #[trigger] subtree(db0, kids@[j]).contains(m) ==> db.node(
                    m,
                ).parent is None,
            !cut ==> forall|m: u64|
                m < db0.nodes.len() ==> db.nodes[m as int].parent == db0.nodes[m as int].parent,
            forall|m: u64|
                m < db0.nodes.len() && m != n && !kids_member(db0, n, m) ==> db.nodes[m as int]
                    == db0.nodes[m as int],
            forall|j: int, m: u64|
                0 <= j < i && #[trigger] subtree(db0, kids@[j]).contains(m) ==> node_cleared(
                    *db,
                    m,
                ),
            forall|j: int, m: u64|
                i <= j < kids@.len() && #[trigger] subtree(db0, kids@[j]).contains(m)
                    ==> db.nodes[m as int] == db0.nodes[m as int],
            forall|p: u64|
                p < db0.insts.len() && !kids_data_prefix(db0, n, p) ==> db.insts[p as int]
                    == db0.insts[p as int],
            forall|m: u64|
                m < db0.nodes.len() ==> db.nodes[m as int].id == db0.nodes[m as int].id
                    && db.nodes[m as int].data == db0.nodes[m as int].data,
        decreases kids@.len() - i,
    {
        let ghost dbi = *db;
        let c = kids[i];
        proof {
            assert(db0.node_wf(n as int));
            assert(n < c && c < db0.nodes.len());
            lemma_kid_subtree(db0, n, i as int);
            assert forall|m: u64| #[trigger] subtree(db0, c).contains(m) implies dbi.nodes[m as int]
                == db0.nodes[m as int] by {}
            lemma_subtree_stable(db0, dbi, c);
            assert(kids_member(db0, n, c)) by {
                lemma_subtree_self(db0, c);
                lemma_kid_subtree_upto(db0, n, i as int, db0.node(n).kid_nids@.len() as int);
            }
        }
        raze_node(db, c, cut);
        proof {
            let ghost dbn = *db;
            // every node the call touched lies in the subtree of `c` as of
            // the entry state
            assert forall|m: u64|
                m < db0.nodes.len() && !subtree(db0, c).contains(m) implies dbn.nodes[m as int]
                == dbi.nodes[m as int] by {}
            // instances the call touched belong to subtree members of `c`
            assert forall|p: u64|
                p < db0.insts.len() && !subtree_data_prefix(db0, c, p) implies dbn.insts[p as int]
                == dbi.insts[p as int] by {
                if subtree_data_prefix(dbi, c, p) {
                    let m = choose|m: u64|
                        #[trigger] subtree(dbi, c).contains(m) && dbi.node(m).data == p;
                    lemma_subtree_floor(db0, c, m);
                    assert(subtree(db0, c).contains(m) && db0.node(m).data == p);
                }
            }
            // frame for nodes outside the kid set
            assert forall|m: u64|
                m < db0.nodes.len() && m != n && !kids_member(db0, n, m) implies dbn.nodes[m as int]
                == db0.nodes[m as int] by {
                assert(!subtree(db0, c).contains(m)) by {
                    if subtree(db0, c).contains(m) {
                        lemma_kid_subtree_upto(
                            db0,
                            n,
                            i as int,
                            db0.node(n).kid_nids@.len() as int,
                        );
                    }
                }
            }
            // the registry owner stays as it was
            assert(dbn.nodes[n as int] == dbi.nodes[n as int]) by {
                lemma_subtree_floor_not(db0, c, n);
            }
            // instance frame for the whole kid set
            assert forall|p: u64|
                p < db0.insts.len() && !kids_data_prefix(db0, n, p) implies dbn.insts[p as int]
                == db0.insts[p as int] by {
                if subtree_data_prefix(db0, c, p) {
                    let m = choose|m: u64|
                        #[trigger] subtree(db0, c).contains(m) && db0.node(m).data == p;
                    lemma_kid_subtree_upto(db0, n, i as int, db0.node(n).kid_nids@.len() as int);
                    assert(kids_member(db0, n, m));
                    assert(kids_data_prefix(db0, n, p));
                }
            }
            // processed subtrees stay cleared; the new one is cleared too
            assert forall|j: int, m: u64|
                0 <= j < i + 1 && #[trigger] subtree(db0, kids@[j]).contains(m) implies node_cleared(
                dbn,
                m,
            ) && (cut ==> dbn.node(m).parent is None) by {
                lemma_subtree_floor(db0, kids@[j], m);
                if j < i {
                    if subtree(db0, c).contains(m) {
                        assert(node_cleared(dbn, m));
                    } else {
                        lemma_sibling_disjoint(db0, n, j, i as int);
                        assert(dbn.nodes[m as int] == dbi.nodes[m as int]);
                        let p = dbi.node(m).data;
                        assert(p == db0.node(m).data);
                        assert(db0.node_wf(m as int));
                        assert(!subtree_data_prefix(db0, c, p)) by {
                            if subtree_data_prefix(db0, c, p) {
                                let m2 = choose|m2: u64|
                                    #[trigger] subtree(db0, c).contains(m2) && db0.node(m2).data
                                        == p;
                                lemma_subtree_floor(db0, c, m2);
                                if m2 != m {
                                    assert(db0.nodes[m2 as int].data != db0.nodes[m as int].data);
                                }
                            }
                        }
                        assert(dbn.insts[p as int] == dbi.insts[p as int]);
                        assert(node_cleared(dbn, m));
                    }
                } else {
                    assert(subtree(db0, c).contains(m));
                }
            }
            // unprocessed subtrees remain intact
            assert forall|j: int, m: u64|
                i + 1 <= j < kids@.len() && #[trigger] subtree(db0, kids@[j]).contains(m) implies dbn.nodes[m as int]
                == db0.nodes[m as int] by {
                lemma_sibling_disjoint(db0, n, j, i as int);
                lemma_subtree_floor(db0, kids@[j], m);
                assert(!subtree(db0, c).contains(m));
            }
        }
        i += 1;
    }
    proof {
        // the kid set of the entry state is the union of the children's
        // subtrees, and all of it is cleared now
        assert forall|m: u64| #[trigger] kids_member(db0, n, m) implies node_cleared(*db, m) && (
        cut ==> db.node(m).parent is None) by {
            lemma_kids_member(db0, n, db0.node(n).kid_nids@.len() as int, m);
        }
    }
}

/// A parent chain, listed from a node up to its root: consecutive links,
/// ending in a node with no parent.
pub open spec fn chain_ok(db: Db, chain: Seq<u64>) -> bool {
    &&& chain.len() > 0
    &&& forall|i: int| 0 <= i < chain.len() ==> db.node_ok(#[trigger] chain[i])
    &&& forall|i: int|
        0 <= i < chain.len() - 1 ==> db.node(#[trigger] chain[i]).parent == Some(chain[i + 1])
    &&& db.node(chain.last()).parent is None
}

/// The one map a chain denotes: each node's entries, nearer nodes winning.
pub open spec fn merged(db: Db, chain: Seq<u64>) -> Map<Seq<u8>, Seq<u8>>
    decreases chain.len(),
{
    if chain.len() == 0 {
        Map::empty()
    } else {
        merged(db, chain.subrange(1, chain.len() as int)).union_prefer_right(
            db.data_of(chain[0]),
        )
    }
}

/// A chain walk reads exactly the merged map of the chain.
pub proof fn lemma_chain_merged(db: Db, chain: Seq<u64>, k: Seq<u8>)
    requires
        db.wf(),
        chain_ok(db, chain),
    ensures
        chain_first(db, chain[0], k) == (if merged(db, chain).contains_key(k) {
            Some(merged(db, chain)[k])
        } else {
            None::<Seq<u8>>
        }),
    decreases chain.len(),
{
    let n = chain[0];
    let rest = chain.subrange(1, chain.len() as int);
    assert(db.node_wf(n as int));
    if db.data_of(n).contains_key(k) {
    } else {
        if chain.len() == 1 {
            assert(db.node(n).parent is None);
            assert(merged(db, rest) == Map::<Seq<u8>, Seq<u8>>::empty());
        } else {
            assert(db.node(n).parent == Some(chain[1]));
            assert(chain[1] == rest[0]);
            assert(chain_ok(db, rest)) by {
                assert(forall|i: int|
                    0 <= i < rest.len() ==> rest[i] == #[trigger] chain[i + 1]);
                assert(rest.last() == chain.last());
            }
            lemma_chain_merged(db, rest, k);
            assert(chain[1] < n);
        }
    }
}

/// Folds every entry of instance `src` over instance `dst`: afterwards
/// `dst` holds its old entries overridden by all of `src`.
pub(crate) fn fold_inst(db: &mut Db, src: u64, dst: u64)
    requires
        old(db).wf(),
        old(db).inst_ok(src),
        old(db).inst_ok(dst),
        src != dst,
    ensures
        final(db).wf(),
        Db::only_inst_changed(*old(db), *final(db), dst),
        final(db).at(dst) == old(db).at(dst).union_prefer_right(old(db).at(src)),
{
    let ghost db0 = *old(db);
    let s = Mapx::from_raw(src);
    let d = Mapx::from_raw(dst);
    let items = s.entries(db);
    let mut i: usize = 0;
    while i < items.len()
        invariant
            db.wf(),
            db0.wf(),
            src < db0.insts.len(),
            dst < db0.insts.len(),
            src != dst,
            s.pfx() == src,
            d.pfx() == dst,
            i <= items@.len(),
            Db::only_inst_changed(db0, *db, dst),
            forall|j: int|
                0 <= j < items@.len() ==> db0.at(src).contains_key(#[trigger] items@[j].0@)
                    && items@[j].1@ == db0.at(src)[items@[j].0@],
            forall|kk: Seq<u8>|
                #[trigger] db0.at(src).contains_key(kk) ==> exists|j: int|
                    0 <= j < items@.len() && items@[j].0@ == kk,
            forall|kk: Seq<u8>|
                #![trigger db0.at(src).contains_key(kk)]
                (exists|j: int| 0 <= j < i && #[trigger] items@[j].0@ == kk) ==> db.at(
                    dst,
                ).contains_key(kk) && db.at(dst)[kk] == db0.at(src)[kk],
            forall|kk: Seq<u8>|
                #![trigger db0.at(dst).contains_key(kk)]
                #![trigger db.at(dst).contains_key(kk)]
                !(exists|j: int| 0 <= j < i && #[trigger] items@[j].0@ == kk) ==> (db.at(
                    dst,
                ).contains_key(kk) == db0.at(dst).contains_key(kk) && (db0.at(
                    dst,
                ).contains_key(kk) ==> db.at(dst)[kk] == db0.at(dst)[kk])),
        decreases items@.len() - i,
    {
        let ghost before = *db;
        d.insert(db, &items[i].0, &items[i].1);
        proof {
            let ki = items@[i as int].0@;
            assert(db.at(dst) == before.at(dst).insert(ki, items@[i as int].1@));
            assert forall|kk: Seq<u8>|
                !(exists|j: int| 0 <= j < i + 1 && #[trigger] items@[j].0@ == kk) implies (db.at(
                dst,
            ).contains_key(kk) == db0.at(dst).contains_key(kk) && (db0.at(dst).contains_key(kk)
                ==> db.at(dst)[kk] == db0.at(dst)[kk])) by {
                assert(items@[i as int].0@ != kk);
                assert(!(exists|j: int| 0 <= j < i && #[trigger] items@[j].0@ == kk));
                assert(before.at(dst).contains_key(kk) == db0.at(dst).contains_key(kk));
                assert(db.at(dst).contains_key(kk) == before.at(dst).contains_key(kk));
            }
            assert forall|kk: Seq<u8>|
                (exists|j: int| 0 <= j < i + 1 && #[trigger] items@[j].0@ == kk) implies db.at(
                dst,
            ).contains_key(kk) && db.at(dst)[kk] == db0.at(src)[kk] by {
                let j = choose|j: int| 0 <= j < i + 1 && #[trigger] items@[j].0@ == kk;
                if kk == ki {
                    assert(db.at(dst)[kk] == items@[i as int].1@);
                } else {
                    assert(j < i);
                    assert(exists|j2: int| 0 <= j2 < i && #[trigger] items@[j2].0@ == kk);
                    assert(db0.at(src).contains_key(kk));
                    assert(db0.at(dst).contains_key(kk) == db0.at(dst).contains_key(kk));
                }
            }
        }
        i += 1;
    }
    proof {
        let u = db0.at(dst).union_prefer_right(db0.at(src));
        assert forall|kk: Seq<u8>|
            #![trigger u.contains_key(kk)]
            db.at(dst).contains_key(kk) == u.contains_key(kk) && (db.at(dst).contains_key(kk)
                ==> db.at(dst)[kk] == u[kk]) by {
            if db0.at(src).contains_key(kk) {
                let j = choose|j: int| 0 <= j < items@.len() && #[trigger] items@[j].0@ == kk;
                assert(0 <= j < items@.len() && items@[j].0@ == kk);
            } else {
                if exists|j: int| 0 <= j < items@.len() && #[trigger] items@[j].0@ == kk {
                    let j = choose|j: int| 0 <= j < items@.len() && #[trigger] items@[j].0@ == kk;
                    assert(db0.at(src).contains_key(items@[j].0@));
                }
            }
        }
        assert(db.at(dst) =~= u);
    }
}

/// Removes and returns the last registered child of `n`. The returned
/// child is afterwards registered nowhere in the arena.
pub(crate) fn kid_pop(db: &mut Db, n: u64) -> (r: Option<(Vec<u8>, u64)>)
    requires
        old(db).wf(),
        old(db).node_ok(n),
    ensures
        final(db).wf(),
        final(db).insts == old(db).insts,
        final(db).nodes.len() == old(db).nodes.len(),
        forall|m: u64|
            m < old(db).nodes.len() && m != n ==> final(db).nodes[m as int] == old(
                db,
            ).nodes[m as int],
        final(db).node(n).id == old(db).node(n).id,
        final(db).node(n).data == old(db).node(n).data,
        final(db).node(n).parent == old(db).node(n).parent,
        match r {
            Some(p) => {
                let id = p.0;
                let c = p.1;
                &&& old(db).node(n).kid_nids@.len() > 0
                &&& id@ == old(db).node(n).kid_ids.deep_view().last()
                &&& c == old(db).node(n).kid_nids@.last()
                &&& n < c < old(db).nodes.len()
                &&& final(db).node(c).id@ == id@
                &&& final(db).node(n).kid_ids.deep_view() == old(
                    db,
                ).node(n).kid_ids.deep_view().drop_last()
                &&& final(db).node(n).kid_nids@ == old(db).node(n).kid_nids@.drop_last()
                &&& final(db).kids(n) == old(db).kids(n).remove(id@)
                &&& old(db).kids(n).contains_key(id@)
                &&& old(db).kids(n)[id@] == c
                &&& unregistered(*final(db), c)
            },
            None => old(db).node(n).kid_nids@.len() == 0 && *final(db) == *old(db),
        },
{
    let ghost db0 = *old(db);
    proof {
        assert(db0.node_wf(n as int));
    }
    if db.nodes[n as usize].kid_nids.len() == 0 {
        return None;
    }
    let node = &mut db.nodes[n as usize];
    let id = match node.kid_ids.pop() {
        Some(v) => v,
        None => {
            proof {
                assert(false);
            }
            Vec::new()
        },
    };
    let c = match node.kid_nids.pop() {
        Some(v) => v,
        None => {
            proof {
                assert(false);
            }
            0
        },
    };
    proof {
        let ghost li = db0.node(n).kid_ids.deep_view().len() - 1;
        assert(db.nodes[n as int].kid_ids.deep_view() =~~= db0.node(
            n,
        ).kid_ids.deep_view().drop_last());
        assert(db.nodes[n as int].kid_nids@ =~= db0.node(n).kid_nids@.drop_last());
        assert(id@ == db0.node(n).kid_ids.deep_view().last()) by {
            assert(db0.node(n).kid_ids@[li].deep_view() =~= db0.node(n).kid_ids@[li]@);
        }
        lemma_assoc_remove(db0.node(n).kid_ids.deep_view(), db0.node(n).kid_nids@, li);
        assert(db0.node(n).kid_ids.deep_view().remove(li) =~= db0.node(
            n,
        ).kid_ids.deep_view().drop_last());
        assert(db0.node(n).kid_nids@.remove(li) =~= db0.node(n).kid_nids@.drop_last());
        lemma_assoc_props(db0.node(n).kid_ids.deep_view(), db0.node(n).kid_nids@);
        assert forall|i: int| 0 <= i < db.nodes.len() implies db.node_wf(i) by {
            assert(db0.node_wf(i));
        }
        assert(db.kid_slots_injective()) by {
            assert forall|a: int, i: int, b: int, j: int|
                0 <= a < db.nodes.len() && 0 <= i < db.nodes[a].kid_nids.len() && 0 <= b
                    < db.nodes.len() && 0 <= j < db.nodes[b].kid_nids.len() && (a != b || i != j)
                    implies #[trigger] db.nodes[a].kid_nids@[i] != #[trigger] db.nodes[b].kid_nids@[j] by {
                assert(db.nodes[a].kid_nids@[i] == db0.nodes[a].kid_nids@[i]);
                assert(db.nodes[b].kid_nids@[j] == db0.nodes[b].kid_nids@[j]);
            }
        }
        assert(db.wf());
        // the popped child is registered nowhere: its only slot was the
        // one just removed
        assert(unregistered(*db, c)) by {
            assert forall|a: int, i: int|
                0 <= a < db.nodes.len() && 0 <= i < db.nodes[a].kid_nids.len() implies #[trigger] db.nodes[a].kid_nids@[i]
                != c by {
                assert(db.nodes[a].kid_nids@[i] == db0.nodes[a].kid_nids@[i]);
                if a != n as int || i != li {
                    assert(db0.nodes[a].kid_nids@[i] != db0.nodes[n as int].kid_nids@[li]);
                }
            }
        }
    }
    Some((id, c))
}

/// Registers `c` under `id` with `n`, replacing any child already under
/// that identifier. `c` must carry `id` and be registered nowhere.
pub(crate) fn kid_put(db: &mut Db, n: u64, id: &Vec<u8>, c: u64)
    requires
        old(db).wf(),
        old(db).node_ok(n),
        old(db).node_ok(c),
        n < c,
        old(db).node(c).id@ == id@,
        unregistered(*old(db), c),
    ensures
        final(db).wf(),
        final(db).insts == old(db).insts,
        final(db).nodes.len() == old(db).nodes.len(),
        forall|m: u64|
            m < old(db).nodes.len() && m != n ==> final(db).nodes[m as int] == old(
                db,
            ).nodes[m as int],
        final(db).kids(n) == old(db).kids(n).insert(id@, c),
        final(db).node(n).id == old(db).node(n).id,
        final(db).node(n).data == old(db).node(n).data,
        final(db).node(n).parent == old(db).node(n).parent,
        forall|i: int|
            0 <= i < final(db).node(n).kid_nids@.len() ==> final(db).node(n).kid_nids@[i] == c
                || (exists|i2: int|
                0 <= i2 < old(db).node(n).kid_nids@.len() && old(db).node(n).kid_nids@[i2]
                    == #[trigger] final(db).node(n).kid_nids@[i]),
{
    let ghost db0 = *old(db);
    proof {
        assert(db0.node_wf(n as int));
        lemma_assoc_props(db0.node(n).kid_ids.deep_view(), db0.node(n).kid_nids@);
    }
    match kid_find(db, n, id) {
        Some(i) => {
            let node = &mut db.nodes[n as usize];
            node.kid_nids[i] = c;
            proof {
                assert(db.nodes[n as int].kid_nids@ =~= db0.node(n).kid_nids@.update(i as int, c));
                crate::kv::lemma_assoc_update(
                    db0.node(n).kid_ids.deep_view(),
                    db0.node(n).kid_nids@,
                    i as int,
                    c,
                );
                assert(db.kids(n) == db0.kids(n).insert(id@, c));
                assert forall|x: int| 0 <= x < db.nodes.len() implies db.node_wf(x) by {
                    assert(db0.node_wf(x));
                    if x == n as int {
                        assert(forall|j: int|
                            0 <= j < db.nodes[x].kid_nids@.len() && j != i ==> db.nodes[x].kid_nids@[j]
                                == db0.nodes[x].kid_nids@[j]);
                    }
                }
                assert(db.kid_slots_injective()) by {
                    assert forall|a: int, x: int, b: int, j: int|
                        0 <= a < db.nodes.len() && 0 <= x < db.nodes[a].kid_nids.len() && 0 <= b
                            < db.nodes.len() && 0 <= j < db.nodes[b].kid_nids.len() && (a != b || x
                            != j) implies #[trigger] db.nodes[a].kid_nids@[x]
                        != #[trigger] db.nodes[b].kid_nids@[j] by {
                        if a == n as int && x == i as int {
                            assert(db.nodes[b].kid_nids@[j] == db0.nodes[b].kid_nids@[j]);
                        } else if b == n as int && j == i as int {
                            assert(db.nodes[a].kid_nids@[x] == db0.nodes[a].kid_nids@[x]);
                        } else {
                            assert(db.nodes[a].kid_nids@[x] == db0.nodes[a].kid_nids@[x]);
                            assert(db.nodes[b].kid_nids@[j] == db0.nodes[b].kid_nids@[j]);
                        }
                    }
                }
                assert(db.wf());
            }
        },
        None => {
            let id2 = bytes_clone(id);
            let node = &mut db.nodes[n as usize];
            node.kid_ids.push(id2);
            node.kid_nids.push(c);
            proof {
                assert(db.nodes[n as int].kid_ids.deep_view() =~~= db0.node(
                    n,
                ).kid_ids.deep_view().push(id@));
                assert(db.nodes[n as int].kid_nids@ =~= db0.node(n).kid_nids@.push(c));
                lemma_assoc_push(db0.node(n).kid_ids.deep_view(), db0.node(n).kid_nids@, id@, c);
                assert(db.kids(n) == db0.kids(n).insert(id@, c));
                let last = db0.node(n).kid_nids@.len() as int;
                assert forall|a: int, b: int|
                    0 <= a < b < db.nodes[n as int].kid_ids.deep_view().len() implies db.nodes[n as int].kid_ids.deep_view()[a]
                    != db.nodes[n as int].kid_ids.deep_view()[b] by {
                    if b == last {
                        assert(db0.kids(n).contains_key(db0.node(n).kid_ids.deep_view()[a]));
                    }
                }
                assert forall|x: int| 0 <= x < db.nodes.len() implies db.node_wf(x) by {
                    assert(db0.node_wf(x));
                    if x == n as int {
                        assert(forall|j: int|
                            0 <= j < db0.node(n).kid_nids@.len() ==> db.nodes[x].kid_nids@[j]
                                == db0.nodes[x].kid_nids@[j]);
                    }
                }
                assert(db.kid_slots_injective()) by {
                    assert forall|a: int, x: int, b: int, j: int|
                        0 <= a < db.nodes.len() && 0 <= x < db.nodes[a].kid_nids.len() && 0 <= b
                            < db.nodes.len() && 0 <= j < db.nodes[b].kid_nids.len() && (a != b || x
                            != j) implies #[trigger] db.nodes[a].kid_nids@[x]
                        != #[trigger] db.nodes[b].kid_nids@[j] by {
                        if a == n as int && x == last {
                            assert(db.nodes[b].kid_nids@[j] == db0.nodes[b].kid_nids@[j]);
                        } else if b == n as int && j == last {
                            assert(db.nodes[a].kid_nids@[x] == db0.nodes[a].kid_nids@[x]);
                        } else {
                            assert(db.nodes[a].kid_nids@[x] == db0.nodes[a].kid_nids@[x]);
                            assert(db.nodes[b].kid_nids@[j] == db0.nodes[b].kid_nids@[j]);
                        }
                    }
                }
                assert(db.wf());
            }
        },
    }
}

/// Points `c` at `p` as its parent.
pub(crate) fn set_parent(db: &mut Db, c: u64, p: Option<u64>)
    requires
        old(db).wf(),
        old(db).node_ok(c),
        p is Some ==> p.unwrap() < c,
    ensures
        final(db).wf(),
        final(db).insts == old(db).insts,
        final(db).nodes.len() == old(db).nodes.len(),
        forall|m: u64|
            m < old(db).nodes.len() && m != c ==> final(db).nodes[m as int] == old(
                db,
            ).nodes[m as int],
        final(db).node(c).parent == p,
        final(db).node(c).id == old(db).node(c).id,
        final(db).node(c).data == old(db).node(c).data,
        final(db).node(c).kid_ids == old(db).node(c).kid_ids,
        final(db).node(c).kid_nids == old(db).node(c).kid_nids,
        final(db).kids(c) == old(db).kids(c),
{
    let ghost db0 = *old(db);
    let node = &mut db.nodes[c as usize];
    node.parent = p;
    proof {
        assert forall|x: int| 0 <= x < db.nodes.len() implies db.node_wf(x) by {
            assert(db0.node_wf(x));
        }
        assert(db.kid_slots_injective()) by {
            assert forall|a: int, x: int, b: int, j: int|
                0 <= a < db.nodes.len() && 0 <= x < db.nodes[a].kid_nids.len() && 0 <= b
                    < db.nodes.len() && 0 <= j < db.nodes[b].kid_nids.len() && (a != b || x != j)
                    implies #[trigger] db.nodes[a].kid_nids@[x] != #[trigger] db.nodes[b].kid_nids@[j] by {
                assert(db.nodes[a].kid_nids@[x] == db0.nodes[a].kid_nids@[x]);
                assert(db.nodes[b].kid_nids@[j] == db0.nodes[b].kid_nids@[j]);
            }
        }
        assert(db.wf());
    }
}

/// Collapses the mainline above `head`: folds every ancestor's entries,
/// oldest first and `head`'s own last, into the root of the chain; moves
/// `head`'s children onto that root; clears everything else that hung off
/// the chain; and returns the root as the new head. A head that already
/// is a root is returned unchanged.
/// Walks the parent chain above `head` and folds every chain member's
/// entries into the chain's root, oldest first and `head`'s own last.
/// Returns the root and, as ghost data, the chain itself.
/// A one-node chain merges to that node's own entries.
proof fn lemma_merged_single(db: Db, n: u64)
    ensures
        merged(db, seq![n]) == db.data_of(n),
{
    assert(seq![n].subrange(1, 1) =~= Seq::<u64>::empty());
    assert(merged(db, Seq::<u64>::empty()) == Map::<Seq<u8>, Seq<u8>>::empty());
    assert(merged(db, seq![n]) =~= db.data_of(n));
}

/// The chain assembled from a head and its collected ancestor line is a
/// proper parent chain with pairwise-distinct members.
proof fn lemma_chain_from_line(db: Db, head: u64, line: Seq<u64>, chain: Seq<u64>)
    requires
        db.wf(),
        db.node_ok(head),
        chain == seq![head] + line,
        line.len() > 0,
        db.node(head).parent == Some(line[0]),
        db.node(line.last()).parent is None,
        forall|i: int| 0 <= i < line.len() ==> line[i] < head && db.node_ok(#[trigger] line[i]),
        forall|i: int| 0 <= i < line.len() - 1 ==> line[i + 1] < #[trigger] line[i],
        forall|i: int|
            0 <= i < line.len() - 1 ==> db.node(#[trigger] line[i]).parent == Some(line[i + 1]),
    ensures
        chain_ok(db, chain),
        chain.len() == line.len() + 1,
        chain[0] == head,
        chain.last() == line.last(),
        forall|i: int| 0 <= i < line.len() ==> chain[i + 1] == #[trigger] line[i],
        forall|i: int, j: int| 0 <= i < j < chain.len() ==> chain[i] != chain[j],
{
    assert(chain.len() == line.len() + 1);
    assert(chain[0] == head);
    assert(forall|i: int| 0 <= i < line.len() ==> chain[i + 1] == #[trigger] line[i]);
    assert(chain.last() == line.last());
    assert(chain_ok(db, chain)) by {
        assert forall|i: int| 0 <= i < chain.len() - 1 implies db.node(
            #[trigger] chain[i],
        ).parent == Some(chain[i + 1]) by {
            if i > 0 {
                assert(chain[i] == line[i - 1]);
                assert(chain[i + 1] == line[i]);
            }
        }
    }
    assert forall|i: int, j: int| 0 <= i < j < chain.len() implies #[trigger] chain[i]
        != #[trigger] chain[j] by {
        assert forall|a: int, b: int| 0 <= a < b < line.len() implies line[b] < line[a] by {
            lemma_line_decreasing(db, line, a, b);
        }
        if i == 0 {
            assert(chain[j] == line[j - 1]);
        } else {
            assert(chain[i] == line[i - 1] && chain[j] == line[j - 1]);
        }
    }
}

#[verifier::rlimit(100)]
fn collapse_fold(db: &mut Db, head: u64, p1: u64) -> (r: (u64, Ghost<Seq<u64>>))
    requires
        old(db).wf(),
        old(db).node_ok(head),
        old(db).node(head).parent == Some(p1),
    ensures
        ({
            let g = r.0;
            let chain = r.1@;
            &&& final(db).wf()
            &&& old(db).node_ok(g)
            &&& g < head
            &&& chain_ok(*old(db), chain)
            &&& chain.len() >= 2
            &&& chain[0] == head
            &&& chain.last() == g
            &&& old(db).node(g).parent is None
            &&& final(db).nodes == old(db).nodes
            &&& final(db).insts.len() == old(db).insts.len()
            &&& forall|q: u64|
                q < old(db).insts.len() && q != old(db).node(g).data ==> final(db).insts[q as int]
                    == old(db).insts[q as int]
            &&& final(db).at(old(db).node(g).data) == merged(*old(db), chain)
        }),
{
    let ghost db0 = *old(db);
    proof {
        assert(db0.node_wf(head as int));
    }
    // collect the strict ancestors, nearest first
    let mut line: Vec<u64> = Vec::new();
    line.push(p1);
    let mut cur: u64 = p1;
    while db.nodes[cur as usize].parent.is_some()
        invariant
            *db == db0,
            db0.wf(),
            db0.node_ok(head),
            db0.node(head).parent == Some(p1),
            line@.len() > 0,
            line@[0] == p1,
            cur == line@.last(),
            cur < head,
            forall|i: int| 0 <= i < line@.len() ==> line@[i] < head && db0.node_ok(#[trigger] line@[i]),
            forall|i: int| 0 <= i < line@.len() - 1 ==> line@[i + 1] < #[trigger] line@[i],
            forall|i: int|
                0 <= i < line@.len() - 1 ==> db0.node(#[trigger] line@[i]).parent == Some(
                    line@[i + 1],
                ),
        decreases cur,
    {
        proof {
            assert(db0.node_wf(cur as int));
        }
        let q = match db.nodes[cur as usize].parent {
            Some(q) => q,
            None => 0,
        };
        line.push(q);
        cur = q;
    }
    proof {
        assert(db0.node(cur).parent is None);
    }
    let g = cur;
    let glen = line.len();
    let ghost chain = seq![head] + line@;
    proof {
        lemma_chain_from_line(db0, head, line@, chain);
    }
    // fold the chain into the root: oldest entries first, head's last
    let gdata = db.nodes[g as usize].data;
    let mut t: usize = glen;
    proof {
        assert(db.at(gdata) == merged(db0, chain.subrange(glen as int, glen + 1 as int))) by {
            assert(chain.subrange(glen as int, glen + 1 as int) =~= seq![g]);
            lemma_merged_single(db0, g);
        }
    }
    while t > 0
        invariant
            db.wf(),
            db0.wf(),
            t <= glen,
            glen == line@.len(),
            glen >= 1,
            chain.len() == glen + 1,
            chain[0] == head,
            forall|i: int| 0 <= i < line@.len() ==> chain[i + 1] == #[trigger] line@[i],
            head < db0.nodes.len(),
            db0.node_ok(head),
            forall|i: int| 0 <= i < chain.len() ==> db0.node_ok(#[trigger] chain[i]),
            forall|i: int, j: int| 0 <= i < j < chain.len() ==> chain[i] != chain[j],
            chain.last() == g,
            g < head,
            db0.node_ok(g),
            gdata == db0.node(g).data,
            db.insts.len() == db0.insts.len(),
            db.nodes == db0.nodes,
            forall|q: u64|
                q < db0.insts.len() && q != gdata ==> db.insts[q as int] == db0.insts[q as int],
            db.at(gdata) == merged(db0, chain.subrange(t as int, glen + 1 as int)),
        decreases t,
    {
        t = t - 1;
        let src_nid = if t == 0 {
            head
        } else {
            line[t - 1]
        };
        proof {
            assert(src_nid == chain[t as int]);
            assert(db0.node_wf(src_nid as int));
            assert(src_nid != g);
            assert(db0.node(src_nid).data != db0.node(g).data);
        }
        let src = db.nodes[src_nid as usize].data;
        proof {
            assert(db0.node_wf(g as int));
            assert(gdata < db.insts.len());
            assert(src < db.insts.len());
            assert(src == db0.node(src_nid).data);
        }
        let ghost pre = *db;
        fold_inst(db, src, gdata);
        proof {
            assert(pre.at(src) == db0.at(src));
            assert(db.at(gdata) == merged(db0, chain.subrange(t as int, glen + 1 as int))) by {
                let sub = chain.subrange(t as int, glen + 1 as int);
                assert(sub[0] == chain[t as int]);
                assert(sub.subrange(1, sub.len() as int) =~= chain.subrange(
                    t + 1 as int,
                    glen + 1 as int,
                ));
                assert(db0.data_of(chain[t as int]) == db0.at(src));
            }
        }
    }
    proof {
        assert(chain.subrange(0, glen + 1 as int) =~= chain);
    }
    (g, Ghost(chain))
}

/// Registers the listed children with `g`, each under its identifier,
/// and points each of them at `g` as its parent.
fn adopt_kids(db: &mut Db, g: u64, moved: &Vec<(Vec<u8>, u64)>)
    requires
        old(db).wf(),
        old(db).node_ok(g),
        old(db).node(g).kid_nids@.len() == 0,
        old(db).node(g).kid_ids@.len() == 0,
        forall|j: int|
            0 <= j < moved@.len() ==> g < #[trigger] moved@[j].1 && (moved@[j].1 as int) < old(
                db,
            ).nodes.len(),
        forall|j: int, j2: int| 0 <= j < j2 < moved@.len() ==> moved@[j].0@ != moved@[j2].0@,
        forall|j: int, j2: int| 0 <= j < j2 < moved@.len() ==> moved@[j].1 != moved@[j2].1,
        forall|j: int|
            0 <= j < moved@.len() ==> old(db).node(#[trigger] moved@[j].1).id@ == moved@[j].0@,
        forall|j: int| 0 <= j < moved@.len() ==> unregistered(*old(db), #[trigger] moved@[j].1),
    ensures
        final(db).wf(),
        final(db).insts == old(db).insts,
        final(db).nodes.len() == old(db).nodes.len(),
        final(db).node(g).id == old(db).node(g).id,
        final(db).node(g).data == old(db).node(g).data,
        final(db).node(g).parent == old(db).node(g).parent,
        forall|m: u64|
            m < old(db).nodes.len() && m != g && (forall|j: int|
                0 <= j < moved@.len() ==> m != #[trigger] moved@[j].1) ==> final(db).nodes[m as int]
                == old(db).nodes[m as int],
        forall|id: Seq<u8>|
            #[trigger] final(db).kids(g).contains_key(id) ==> exists|j: int|
                0 <= j < moved@.len() && #[trigger] moved@[j].0@ == id,
        forall|j: int|
            0 <= j < moved@.len() ==> final(db).kids(g).contains_key(#[trigger] moved@[j].0@)
                && final(db).kids(g)[moved@[j].0@] == moved@[j].1,
        forall|j: int|
            0 <= j < moved@.len() ==> final(db).node(#[trigger] moved@[j].1).parent == Some(g),
        forall|j: int|
            0 <= j < moved@.len() ==> final(db).nodes[moved@[j].1 as int].id == old(
                db,
            ).nodes[#[trigger] moved@[j].1 as int].id && final(db).nodes[moved@[j].1 as int].data
                == old(db).nodes[moved@[j].1 as int].data
                && final(db).nodes[moved@[j].1 as int].kid_ids == old(db).nodes[moved@[j].1 as int].kid_ids
                && final(db).nodes[moved@[j].1 as int].kid_nids == old(db).nodes[moved@[j].1 as int].kid_nids,
{
    let ghost ad0 = *old(db);
    let mut t2: usize = 0;
    while t2 < moved.len()
        invariant
            db.wf(),
            ad0.wf(),
            t2 <= moved@.len(),
            db.insts == ad0.insts,
            db.nodes.len() == ad0.nodes.len(),
            db.node(g).id == ad0.node(g).id,
            db.node(g).data == ad0.node(g).data,
            db.node(g).parent == ad0.node(g).parent,
            forall|m: u64|
                m < ad0.nodes.len() && m != g && (forall|j: int|
                    0 <= j < moved@.len() ==> m != #[trigger] moved@[j].1) ==> db.nodes[m as int]
                    == ad0.nodes[m as int],
            forall|j: int|
                0 <= j < moved@.len() ==> g < #[trigger] moved@[j].1 && (moved@[j].1 as int)
                    < ad0.nodes.len(),
            forall|j: int, j2: int| 0 <= j < j2 < moved@.len() ==> moved@[j].0@ != moved@[j2].0@,
            forall|j: int, j2: int| 0 <= j < j2 < moved@.len() ==> moved@[j].1 != moved@[j2].1,
            forall|j: int|
                t2 <= j < moved@.len() ==> db.nodes[moved@[j].1 as int] == ad0.nodes[#[trigger] moved@[j].1 as int],
            forall|j: int|
                0 <= j < moved@.len() ==> ad0.node(#[trigger] moved@[j].1).id@ == moved@[j].0@,
            forall|j: int| t2 <= j < moved@.len() ==> unregistered(*db, #[trigger] moved@[j].1),
            forall|id: Seq<u8>|
                #[trigger] db.kids(g).contains_key(id) ==> exists|j: int|
                    0 <= j < t2 && #[trigger] moved@[j].0@ == id,
            forall|j: int|
                0 <= j < t2 ==> db.kids(g).contains_key(#[trigger] moved@[j].0@) && db.kids(
                    g,
                )[moved@[j].0@] == moved@[j].1,
            forall|j: int|
                0 <= j < t2 ==> db.node(#[trigger] moved@[j].1).parent == Some(g),
            forall|j: int|
                0 <= j < t2 ==> db.nodes[moved@[j].1 as int].id == ad0.nodes[#[trigger] moved@[j].1 as int].id
                    && db.nodes[moved@[j].1 as int].data == ad0.nodes[moved@[j].1 as int].data
                    && db.nodes[moved@[j].1 as int].kid_ids == ad0.nodes[moved@[j].1 as int].kid_ids
                    && db.nodes[moved@[j].1 as int].kid_nids
                    == ad0.nodes[moved@[j].1 as int].kid_nids,
            ad0.node(g).kid_nids@.len() == 0,
            ad0.node(g).kid_ids@.len() == 0,
        decreases moved@.len() - t2,
    {
        let id = bytes_clone(&moved[t2].0);
        let c = moved[t2].1;
        proof {
            assert(db.nodes[c as int] == ad0.nodes[c as int]);
            assert(db.node(c).id@ == id@);
        }
        let ghost pre = *db;
        kid_put(db, g, &id, c);
        proof {
            assert(db.kids(g) == pre.kids(g).insert(id@, c));
            assert(id@ == moved@[t2 as int].0@);
            assert forall|j: int| t2 + 1 <= j < moved@.len() implies unregistered(
                *db,
                #[trigger] moved@[j].1,
            ) by {
                assert forall|a: int, i: int|
                    0 <= a < db.nodes.len() && 0 <= i < db.nodes[a].kid_nids.len()
                        implies #[trigger] db.nodes[a].kid_nids@[i] != moved@[j].1 by {
                    if a == g as int {
                        let v = db.nodes[a].kid_nids@[i];
                        if v != c {
                            let i2 = choose|i2: int|
                                0 <= i2 < pre.node(g).kid_nids@.len() && pre.node(g).kid_nids@[i2]
                                    == v;
                            assert(pre.nodes[a].kid_nids@[i2] != moved@[j].1);
                        }
                    } else {
                        assert(db.nodes[a] == pre.nodes[a]);
                    }
                }
            }
        }
        let ghost pre2 = *db;
        set_parent(db, c, Some(g));
        proof {
            assert(db.nodes[g as int] == pre2.nodes[g as int]);
            assert(db.kids(g) == pre2.kids(g));
            assert forall|j: int| t2 + 1 <= j < moved@.len() implies unregistered(
                *db,
                #[trigger] moved@[j].1,
            ) by {
                assert forall|a: int, i: int|
                    0 <= a < db.nodes.len() && 0 <= i < db.nodes[a].kid_nids.len()
                        implies #[trigger] db.nodes[a].kid_nids@[i] != moved@[j].1 by {
                    assert(db.nodes[a].kid_nids@ == pre2.nodes[a].kid_nids@);
                }
            }
        }
        t2 = t2 + 1;
    }
}

#[verifier::rlimit(100)]
pub(crate) fn collapse_mainline(db: &mut Db, head: u64) -> (g: u64)
    requires
        old(db).wf(),
        old(db).node_ok(head),
    ensures
        final(db).wf(),
        final(db).node_ok(g),
        g <= head,
        final(db).insts.len() == old(db).insts.len(),
        final(db).nodes.len() == old(db).nodes.len(),
        final(db).node(g).parent is None,
        forall|k: Seq<u8>| chain_first(*final(db), g, k) == chain_first(*old(db), head, k),
        final(db).kids(g) == old(db).kids(head),
        old(db).node(head).parent is Some ==> forall|id: Seq<u8>|
            #[trigger] old(db).kids(head).contains_key(id) ==> final(db).node(
                old(db).kids(head)[id],
            ).parent == Some(g),
        old(db).node(head).parent is None ==> g == head && *final(db) == *old(db),
        forall|m: u64|
            m < old(db).nodes.len() ==> final(db).nodes[m as int].id == old(db).nodes[m as int].id
                && final(db).nodes[m as int].data == old(db).nodes[m as int].data,
        forall|m: u64|
            m < old(db).nodes.len() && m != g && final(db).nodes[m as int] != old(
                db,
            ).nodes[m as int] ==> node_cleared(*final(db), m) || final(db).node(m).parent == Some(
                g,
            ),
        forall|p: u64|
            p < old(db).insts.len() && final(db).insts[p as int] != old(db).insts[p as int]
                ==> exists|m: u64|
                m < old(db).nodes.len() && old(db).nodes[m as int].data == p,
        // when there was a chain to collapse: the head ends cleared and
        // detached, the moved children keep their own shape, and every
        // node of the old genesis subtree not under a moved child is left
        // cleared
        old(db).node(head).parent is Some ==> node_cleared(*final(db), head) && final(db).node(
            head,
        ).parent is None,
        old(db).node(head).parent is Some ==> forall|id: Seq<u8>|
            #[trigger] old(db).kids(head).contains_key(id) ==> ({
                let c = old(db).kids(head)[id];
                &&& final(db).nodes[c as int].id == old(db).nodes[c as int].id
                &&& final(db).nodes[c as int].data == old(db).nodes[c as int].data
                &&& final(db).nodes[c as int].kid_ids == old(db).nodes[c as int].kid_ids
                &&& final(db).nodes[c as int].kid_nids == old(db).nodes[c as int].kid_nids
            }),
        old(db).node(head).parent is Some ==> forall|m: u64|
            #[trigger] subtree(*old(db), g).contains(m) && m != g && (forall|id: Seq<u8>|
                #[trigger] old(db).kids(head).contains_key(id) ==> !subtree(
                    *old(db),
                    old(db).kids(head)[id],
                ).contains(m)) ==> node_cleared(*final(db), m),
        // parent links move only at the head and the adopted children
        forall|m: u64|
            m < old(db).nodes.len() && m != head && (forall|id: Seq<u8>|
                #[trigger] old(db).kids(head).contains_key(id) ==> m != old(db).kids(head)[id])
                ==> final(db).nodes[m as int].parent == old(db).nodes[m as int].parent,
{
    let ghost db0 = *old(db);
    let first_parent = db.nodes[head as usize].parent;
    let p1 = match first_parent {
        None => {
            return head;
        },
        Some(p) => p,
    };
    proof {
        assert(db0.node_wf(head as int));
    }
    let r = collapse_fold(db, head, p1);
    let g = r.0;
    let ghost chain = r.1@;
    let gdata = db.nodes[g as usize].data;
    proof {
        assert(gdata == db0.node(g).data);
        assert(db.at(gdata) == merged(db0, chain));
        assert(db0.node_wf(g as int));
        assert(g < head && head < db0.nodes.len());
    }
    // take the head's children out of its registry
    let mut moved: Vec<(Vec<u8>, u64)> = Vec::new();
    let ghost hkids = db0.kids(head);
    proof {
        assert(db.node(head) == db0.node(head));
        assert(db.kids(head) == hkids);
    }
    while db.nodes[head as usize].kid_nids.len() > 0
        invariant
            db.wf(),
            db0.wf(),
            db0.node_ok(head),
            head < db0.nodes.len(),
            hkids == db0.kids(head),
            db.insts.len() == db0.insts.len(),
            db.nodes.len() == db0.nodes.len(),
            forall|q: u64|
                q < db0.insts.len() && q != gdata ==> db.insts[q as int] == db0.insts[q as int],
            db.at(gdata) == merged(db0, chain),
            forall|m: u64|
                m < db0.nodes.len() && m != head ==> db.nodes[m as int] == db0.nodes[m as int],
            db.node(head).id == db0.node(head).id,
            db.node(head).data == db0.node(head).data,
            db.node(head).parent == db0.node(head).parent,
            forall|id: Seq<u8>|
                #[trigger] db.kids(head).contains_key(id) ==> hkids.contains_key(id)
                    && db.kids(head)[id] == hkids[id],
            forall|id: Seq<u8>|
                #[trigger] hkids.contains_key(id) ==> db.kids(head).contains_key(id) || exists|
                    j: int,
                |
                    0 <= j < moved@.len() && #[trigger] moved@[j].0@ == id,
            forall|j: int|
                0 <= j < moved@.len() ==> #[trigger] hkids.contains_key(moved@[j].0@)
                    && hkids[moved@[j].0@] == moved@[j].1,
            forall|j: int, j2: int| 0 <= j < j2 < moved@.len() ==> moved@[j].0@ != moved@[j2].0@,
            forall|j: int|
                0 <= j < moved@.len() ==> head < #[trigger] moved@[j].1 && (moved@[j].1 as int)
                    < db0.nodes.len() && db.node(moved@[j].1).id@ == moved@[j].0@,
            forall|j: int| 0 <= j < moved@.len() ==> unregistered(*db, #[trigger] moved@[j].1),
            forall|j: int|
                0 <= j < moved@.len() ==> !db.kids(head).contains_key(#[trigger] moved@[j].0@),
        decreases db.node(head).kid_nids@.len(),
    {
        let ghost pre = *db;
        match kid_pop(db, head) {
            Some(pair) => {
                proof {
                    assert forall|j: int| 0 <= j < moved@.len() implies unregistered(
                        *db,
                        #[trigger] moved@[j].1,
                    ) by {
                        assert forall|a: int, i: int|
                            0 <= a < db.nodes.len() && 0 <= i < db.nodes[a].kid_nids.len()
                                implies #[trigger] db.nodes[a].kid_nids@[i] != moved@[j].1 by {
                            if a != head as int {
                                assert(db.nodes[a] == pre.nodes[a]);
                            } else {
                                assert(db.nodes[a].kid_nids@[i] == pre.nodes[a].kid_nids@[i]);
                            }
                        }
                    }
                }
                let ghost c = pair.1;
                proof {
                    assert(pre.kids(head).contains_key(pair.0@));
                    assert(hkids.contains_key(pair.0@) && hkids[pair.0@] == c);
                    assert(pre.node_wf(head as int));
                }
                let ghost pm = moved@;
                let ghost pid = pair.0@;
                moved.push(pair);
                proof {
                    assert(moved@.len() == pm.len() + 1);
                    assert(moved@[pm.len() as int].0@ == pid);
                    assert(moved@[pm.len() as int].1 == c);
                    assert(forall|j: int| 0 <= j < pm.len() ==> moved@[j] == #[trigger] pm[j]);
                    assert forall|j: int|
                        0 <= j < moved@.len() implies #[trigger] hkids.contains_key(moved@[j].0@)
                        && hkids[moved@[j].0@] == moved@[j].1 by {
                        if j < pm.len() {
                            assert(moved@[j] == pm[j]);
                        } else {
                            assert(moved@[j].0@ == pid && moved@[j].1 == c);
                        }
                    }
                    assert forall|id: Seq<u8>| #[trigger] hkids.contains_key(id) implies db.kids(
                        head,
                    ).contains_key(id) || exists|j: int|
                        0 <= j < moved@.len() && #[trigger] moved@[j].0@ == id by {
                        if pre.kids(head).contains_key(id) {
                            if id == pid {
                                assert(moved@[pm.len() as int].0@ == id);
                            }
                        } else {
                            let j = choose|j: int| 0 <= j < pm.len() && #[trigger] pm[j].0@ == id;
                            assert(moved@[j].0@ == id);
                        }
                    }
                }
            },
            None => {
                proof {
                    assert(false);
                }
            },
        }
    }
    proof {
        assert(db.node_wf(head as int));
        assert(db.node(head).kid_ids@.len() == 0);
        assert forall|id: Seq<u8>| #[trigger] hkids.contains_key(id) implies exists|j: int|
            0 <= j < moved@.len() && #[trigger] moved@[j].0@ == id by {
            if db.kids(head).contains_key(id) {
                lemma_assoc_props(db.node(head).kid_ids.deep_view(), db.node(head).kid_nids@);
                let i = choose|i: int|
                    0 <= i < db.node(head).kid_ids.deep_view().len() && db.node(
                        head,
                    ).kid_ids.deep_view()[i] == id;
                assert(false);
            }
        }
    }
    // the head itself is spent: clear it and detach it
    let ghost dbd = *db;
    let hdata = db.nodes[head as usize].data;
    let hclr = Mapx::from_raw(hdata);
    proof {
        assert(db0.node_wf(head as int));
        assert(hdata == db0.node(head).data);
        assert(hdata != gdata);
    }
    hclr.clear(db);
    proof {
        assert(db.insts[gdata as int] == dbd.insts[gdata as int]);
        assert(db.at(gdata) == merged(db0, chain));
    }
    set_parent(db, head, None);
    let ghost dbr = *db;
    proof {
        assert(db.node(g) == db0.node(g));
        assert(db.kids(g) == db0.kids(g));
        assert(dbr.at(gdata) == merged(db0, chain));
        assert forall|q: u64|
            q < db0.insts.len() && q != gdata && q != hdata implies dbr.insts[q as int]
            == db0.insts[q as int] by {}
        assert forall|m: u64|
            m < db0.nodes.len() && m != head implies dbr.nodes[m as int] == db0.nodes[m as int] by {}
        assert(dbr.node(head).data == hdata);
        assert(node_cleared(dbr, head));
        // the drained children are still registered nowhere
        assert forall|j: int| 0 <= j < moved@.len() implies unregistered(
            dbr,
            #[trigger] moved@[j].1,
        ) by {
            assert forall|a: int, i: int|
                0 <= a < dbr.nodes.len() && 0 <= i < dbr.nodes[a].kid_nids.len()
                    implies #[trigger] dbr.nodes[a].kid_nids@[i] != moved@[j].1 by {
                assert(dbr.nodes[a].kid_nids@[i] == dbd.nodes[a].kid_nids@[i]);
            }
        }
    }
    // everything still hanging off the root is off the mainline: raze it
    raze_kids(db, g, false);
    let ghost dba = *db;
    proof {
        // the root's own entries were not among the razed instances
        assert(dba.insts[gdata as int] == dbr.insts[gdata as int]) by {
            if kids_data_prefix(dbr, g, gdata) {
                let m2 = choose|m2: u64|
                    #[trigger] kids_member(dbr, g, m2) && dbr.node(m2).data == gdata;
                lemma_kids_floor(dbr, g, dbr.node(g).kid_nids@.len() as int, m2);
                assert(dbr.nodes[m2 as int].data != dbr.nodes[g as int].data);
            }
        }
        // the moved children were not reachable from the root's registry
        assert forall|j: int| 0 <= j < moved@.len() implies !kids_member(
            dbr,
            g,
            #[trigger] moved@[j].1,
        ) by {
            lemma_unregistered_not_member(dbr, g, moved@[j].1);
        }
        assert forall|j: int| 0 <= j < moved@.len() implies dba.nodes[moved@[j].1 as int]
            == dbr.nodes[#[trigger] moved@[j].1 as int] by {
            assert(!kids_member(dbr, g, moved@[j].1));
            assert(moved@[j].1 != g);
        }
    }
    // hand the head's children to the root
    proof {
        // the children survive the razing untouched and unregistered
        assert forall|j: int| 0 <= j < moved@.len() implies unregistered(
            dba,
            #[trigger] moved@[j].1,
        ) by {
            let c = moved@[j].1;
            assert forall|a: int, i: int|
                0 <= a < dba.nodes.len() && 0 <= i < dba.nodes[a].kid_nids.len()
                    implies #[trigger] dba.nodes[a].kid_nids@[i] != c by {
                if a == g as int {
                    assert(dba.node(g).kid_nids@.len() == 0);
                } else if dba.nodes[a] == dbr.nodes[a] {
                    assert(dbr.nodes[a].kid_nids@[i] != c);
                } else {
                    assert(kids_member(dbr, g, a as u64) || a as u64 == g);
                    assert(node_cleared(dba, a as u64));
                }
            }
        }
        assert forall|j: int| 0 <= j < moved@.len() implies dba.node(#[trigger] moved@[j].1).id@
            == moved@[j].0@ by {
            assert(dba.nodes[moved@[j].1 as int] == dbr.nodes[moved@[j].1 as int]);
            assert(dbr.nodes[moved@[j].1 as int] == dbd.nodes[moved@[j].1 as int]);
        }
    }
    adopt_kids(db, g, &moved);
    proof {
        let fin = *db;
        lemma_collapse_assemble(db0, dbr, dba, fin, head, g, gdata, hdata, chain, hkids, moved@);
    }
    g
}

/// A node registered nowhere cannot sit below anyone's children.
proof fn lemma_unregistered_not_member(db: Db, g: u64, c: u64)
    requires
        db.wf(),
        db.node_ok(g),
        unregistered(db, c),
    ensures
        !kids_member(db, g, c),
{
    if kids_member(db, g, c) {
        assert(db.node_wf(g as int));
        lemma_kids_member(db, g, db.node(g).kid_nids@.len() as int, c);
        let j0 = choose|j0: int|
            0 <= j0 < db.node(g).kid_nids@.len() && #[trigger] subtree(
                db,
                db.node(g).kid_nids@[j0],
            ).contains(c);
        let gkid = db.node(g).kid_nids@[j0];
        if c == gkid {
            assert(db.nodes[g as int].kid_nids@[j0] != c);
        } else {
            lemma_subtree_incoming(db, gkid, c);
            let (x, j2) = choose|x: u64, j2: int|
                #![auto]
                subtree(db, gkid).contains(x) && x < db.nodes.len() && 0 <= j2 < db.node(
                    x,
                ).kid_nids@.len() && db.node(x).kid_nids@[j2] == c;
            assert(db.nodes[x as int].kid_nids@[j2] != c);
        }
    }
}

/// Assembles the collapse contract from the per-phase effects: `dbr` is
/// the store after folding and spending the head, `dba` after razing what
/// still hung off the root, `fin` after the head's children were adopted.
proof fn lemma_collapse_assemble(
    db0: Db,
    dbr: Db,
    dba: Db,
    fin: Db,
    head: u64,
    g: u64,
    gdata: u64,
    hdata: u64,
    chain: Seq<u64>,
    hkids: Map<Seq<u8>, u64>,
    moved: Seq<(Vec<u8>, u64)>,
)
    requires
        db0.wf(),
        dbr.wf(),
        db0.node_ok(head),
        db0.node_ok(g),
        g < head,
        head < db0.nodes.len(),
        db0.node(head).parent is Some,
        db0.node(g).parent is None,
        gdata == db0.node(g).data,
        hdata == db0.node(head).data,
        hkids == db0.kids(head),
        chain_ok(db0, chain),
        chain.len() >= 2,
        chain[0] == head,
        chain.last() == g,
        dbr.insts.len() == db0.insts.len(),
        dbr.nodes.len() == db0.nodes.len(),
        forall|m: u64|
            m < db0.nodes.len() && m != head ==> dbr.nodes[m as int] == db0.nodes[m as int],
        dbr.node(head).id == db0.node(head).id,
        dbr.node(head).data == db0.node(head).data,
        node_cleared(dbr, head),
        forall|q: u64|
            q < db0.insts.len() && q != gdata && q != hdata ==> dbr.insts[q as int]
                == db0.insts[q as int],
        dbr.at(gdata) == merged(db0, chain),
        dba.wf(),
        dba.insts.len() == dbr.insts.len(),
        dba.nodes.len() == dbr.nodes.len(),
        dba.node(g).id == dbr.node(g).id,
        dba.node(g).data == dbr.node(g).data,
        dba.node(g).parent == dbr.node(g).parent,
        dba.node(g).kid_nids@.len() == 0,
        dba.node(g).kid_ids@.len() == 0,
        forall|m: u64|
            m < dbr.nodes.len() && m != g && !kids_member(dbr, g, m) ==> dba.nodes[m as int]
                == dbr.nodes[m as int],
        forall|m: u64| #[trigger] kids_member(dbr, g, m) ==> node_cleared(dba, m),
        forall|p: u64|
            p < dbr.insts.len() && !kids_data_prefix(dbr, g, p) ==> dba.insts[p as int]
                == dbr.insts[p as int],
        forall|m: u64|
            m < dbr.nodes.len() ==> dba.nodes[m as int].id == dbr.nodes[m as int].id
                && dba.nodes[m as int].data == dbr.nodes[m as int].data,
        forall|m: u64|
            m < dbr.nodes.len() ==> dba.nodes[m as int].parent == dbr.nodes[m as int].parent,
        dba.insts[gdata as int] == dbr.insts[gdata as int],
        forall|id: Seq<u8>|
            #[trigger] hkids.contains_key(id) ==> exists|j: int|
                0 <= j < moved.len() && #[trigger] moved[j].0@ == id,
        forall|j: int|
            0 <= j < moved.len() ==> #[trigger] hkids.contains_key(moved[j].0@)
                && hkids[moved[j].0@] == moved[j].1,
        forall|j: int, j2: int| 0 <= j < j2 < moved.len() ==> moved[j].0@ != moved[j2].0@,
        forall|j: int|
            0 <= j < moved.len() ==> head < #[trigger] moved[j].1 && (moved[j].1 as int)
                < db0.nodes.len(),
        forall|j: int| 0 <= j < moved.len() ==> !kids_member(dbr, g, #[trigger] moved[j].1),
        fin.insts == dba.insts,
        fin.nodes.len() == dba.nodes.len(),
        fin.node(g).id == dba.node(g).id,
        fin.node(g).data == dba.node(g).data,
        fin.node(g).parent == dba.node(g).parent,
        forall|m: u64|
            m < db0.nodes.len() && m != g && (forall|j: int|
                0 <= j < moved.len() ==> m != #[trigger] moved[j].1) ==> fin.nodes[m as int]
                == dba.nodes[m as int],
        forall|id: Seq<u8>|
            #[trigger] fin.kids(g).contains_key(id) ==> exists|j: int|
                0 <= j < moved.len() && #[trigger] moved[j].0@ == id,
        forall|j: int|
            0 <= j < moved.len() ==> fin.kids(g).contains_key(#[trigger] moved[j].0@) && fin.kids(
                g,
            )[moved[j].0@] == moved[j].1,
        forall|j: int| 0 <= j < moved.len() ==> fin.node(#[trigger] moved[j].1).parent == Some(g),
        forall|j: int|
            0 <= j < moved.len() ==> fin.nodes[moved[j].1 as int].id == dba.nodes[#[trigger] moved[j].1 as int].id
                && fin.nodes[moved[j].1 as int].data == dba.nodes[moved[j].1 as int].data
                && fin.nodes[moved[j].1 as int].kid_ids == dba.nodes[moved[j].1 as int].kid_ids
                && fin.nodes[moved[j].1 as int].kid_nids == dba.nodes[moved[j].1 as int].kid_nids,
        forall|j: int|
            0 <= j < moved.len() ==> !kids_member(dbr, g, #[trigger] moved[j].1)
                && dba.nodes[moved[j].1 as int] == dbr.nodes[moved[j].1 as int],
        dbr.node(head).parent is None,
        dbr.node(head).kid_nids@.len() == 0,
        forall|x: u64|
            x < db0.nodes.len() && x != head ==> dbr.nodes[x as int].kid_ids == db0.nodes[x as int].kid_ids
                && dbr.nodes[x as int].kid_nids == db0.nodes[x as int].kid_nids,
    ensures
        fin.node(g).parent is None,
        forall|k: Seq<u8>| chain_first(fin, g, k) == chain_first(db0, head, k),
        fin.kids(g) == hkids,
        forall|id: Seq<u8>|
            #[trigger] hkids.contains_key(id) ==> fin.node(hkids[id]).parent == Some(g),
        forall|m: u64|
            m < db0.nodes.len() ==> fin.nodes[m as int].id == db0.nodes[m as int].id
                && fin.nodes[m as int].data == db0.nodes[m as int].data,
        forall|m: u64|
            m < db0.nodes.len() && m != g && fin.nodes[m as int] != db0.nodes[m as int]
                ==> node_cleared(fin, m) || fin.node(m).parent == Some(g),
        forall|p: u64|
            p < db0.insts.len() && fin.insts[p as int] != db0.insts[p as int] ==> exists|m: u64|
                m < db0.nodes.len() && db0.nodes[m as int].data == p,
        node_cleared(fin, head),
        fin.node(head).parent is None,
        forall|id: Seq<u8>|
            #[trigger] hkids.contains_key(id) ==> fin.nodes[hkids[id] as int].id
                == db0.nodes[hkids[id] as int].id && fin.nodes[hkids[id] as int].data
                == db0.nodes[hkids[id] as int].data && fin.nodes[hkids[id] as int].kid_ids
                == db0.nodes[hkids[id] as int].kid_ids && fin.nodes[hkids[id] as int].kid_nids
                == db0.nodes[hkids[id] as int].kid_nids,
        forall|m: u64|
            #[trigger] subtree(db0, g).contains(m) && m != g && (forall|id: Seq<u8>|
                #[trigger] hkids.contains_key(id) ==> !subtree(db0, hkids[id]).contains(m))
                ==> node_cleared(fin, m),
        forall|m: u64|
            m < db0.nodes.len() && m != head && (forall|id: Seq<u8>|
                #[trigger] hkids.contains_key(id) ==> m != hkids[id]) ==> fin.nodes[m as int].parent
                == db0.nodes[m as int].parent,
{
    assert(fin.at(gdata) == merged(db0, chain));
    assert(fin.node(g).data == gdata);
    assert(fin.node(g).parent is None);
    // reads at the new head replay reads at the old one
    assert forall|k: Seq<u8>| chain_first(fin, g, k) == chain_first(db0, head, k) by {
        lemma_chain_merged(db0, chain, k);
        assert(fin.data_of(g) == merged(db0, chain));
    }
    // the head's registry moved over wholesale
    assert(fin.kids(g) == hkids) by {
        assert forall|id: Seq<u8>| #[trigger] hkids.contains_key(id) implies fin.kids(
            g,
        ).contains_key(id) && fin.kids(g)[id] == hkids[id] by {
            let j = choose|j: int| 0 <= j < moved.len() && #[trigger] moved[j].0@ == id;
            assert(fin.kids(g).contains_key(moved[j].0@));
        }
        assert forall|id: Seq<u8>| #[trigger] fin.kids(g).contains_key(id) implies hkids.contains_key(
            id,
        ) by {
            let j = choose|j: int| 0 <= j < moved.len() && #[trigger] moved[j].0@ == id;
            assert(hkids.contains_key(moved[j].0@));
        }
        assert(fin.kids(g) =~= hkids);
    }
    assert forall|id: Seq<u8>| #[trigger] hkids.contains_key(id) implies fin.node(
        hkids[id],
    ).parent == Some(g) by {
        let j = choose|j: int| 0 <= j < moved.len() && #[trigger] moved[j].0@ == id;
        assert(fin.node(moved[j].1).parent == Some(g));
    }
    // identity fields survive every phase
    assert forall|m: u64| m < db0.nodes.len() implies fin.nodes[m as int].id
        == db0.nodes[m as int].id && fin.nodes[m as int].data == db0.nodes[m as int].data by {
        assert(dbr.nodes[m as int].id == db0.nodes[m as int].id && dbr.nodes[m as int].data
            == db0.nodes[m as int].data);
        assert(dba.nodes[m as int].id == dbr.nodes[m as int].id && dba.nodes[m as int].data
            == dbr.nodes[m as int].data);
        if m == g {
        } else if exists|j: int| 0 <= j < moved.len() && #[trigger] moved[j].1 == m {
            let j = choose|j: int| 0 <= j < moved.len() && #[trigger] moved[j].1 == m;
            assert(fin.nodes[m as int].id == dba.nodes[m as int].id && fin.nodes[m as int].data
                == dba.nodes[m as int].data);
        } else {
            assert(fin.nodes[m as int] == dba.nodes[m as int]);
        }
    }
    // whatever else changed was left cleared
    assert forall|m: u64|
        m < db0.nodes.len() && m != g && fin.nodes[m as int] != db0.nodes[m as int] implies (
    node_cleared(fin, m) || fin.node(m).parent == Some(g)) by {
        if exists|j: int| 0 <= j < moved.len() && #[trigger] moved[j].1 == m {
            let j = choose|j: int| 0 <= j < moved.len() && #[trigger] moved[j].1 == m;
            assert(fin.node(m).parent == Some(g));
        } else {
            assert(fin.nodes[m as int] == dba.nodes[m as int]);
            if m == head {
                assert(node_cleared(dba, head)) by {
                    assert(db0.node_wf(head as int));
                    assert(hdata < db0.insts.len());
                    if kids_member(dbr, g, head) {
                    } else {
                        assert(dba.nodes[head as int] == dbr.nodes[head as int]);
                        assert(dba.insts[hdata as int] == dbr.insts[hdata as int]) by {
                            if kids_data_prefix(dbr, g, hdata) {
                                let m2 = choose|m2: u64|
                                    #[trigger] kids_member(dbr, g, m2) && dbr.node(m2).data
                                        == hdata;
                                assert(m2 == head) by {
                                    lemma_kids_floor(
                                        dbr,
                                        g,
                                        dbr.node(g).kid_nids@.len() as int,
                                        m2,
                                    );
                                    if m2 != head {
                                        assert(dbr.nodes[m2 as int].data
                                            != dbr.nodes[head as int].data);
                                    }
                                }
                                assert(kids_member(dbr, g, head));
                            }
                        }
                    }
                }
                assert(node_cleared(fin, head)) by {
                    assert(fin.at(fin.node(head).data) == dba.at(dba.node(head).data));
                }
            } else if kids_member(dbr, g, m) {
                assert(node_cleared(dba, m));
                assert(node_cleared(fin, m)) by {
                    assert(fin.at(fin.node(m).data) == dba.at(dba.node(m).data));
                }
            } else {
                assert(dba.nodes[m as int] == dbr.nodes[m as int]);
                assert(dbr.nodes[m as int] == db0.nodes[m as int]);
            }
        }
    }
    // only node data instances were rewritten
    assert forall|p: u64|
        p < db0.insts.len() && fin.insts[p as int] != db0.insts[p as int] implies exists|m: u64|
        m < db0.nodes.len() && db0.nodes[m as int].data == p by {
        assert(fin.insts[p as int] == dba.insts[p as int]);
        if dba.insts[p as int] != dbr.insts[p as int] {
            assert(kids_data_prefix(dbr, g, p));
            let m2 = choose|m2: u64| #[trigger] kids_member(dbr, g, m2) && dbr.node(m2).data == p;
            lemma_kids_floor(dbr, g, dbr.node(g).kid_nids@.len() as int, m2);
            assert(m2 < db0.nodes.len() && db0.nodes[m2 as int].data == p);
        } else {
            if p != gdata && p != hdata {
                assert(dbr.insts[p as int] == db0.insts[p as int]);
            } else if p == gdata {
                assert(g < db0.nodes.len() && db0.nodes[g as int].data == p);
            } else {
                assert(head < db0.nodes.len() && db0.nodes[head as int].data == p);
            }
        }
    }
    // the old head ends cleared and detached
    assert(forall|j: int| 0 <= j < moved.len() ==> head != #[trigger] moved[j].1);
    assert(fin.nodes[head as int] == dba.nodes[head as int]);
    assert(node_cleared(dba, head)) by {
        if kids_member(dbr, g, head) {
        } else {
            assert(dba.nodes[head as int] == dbr.nodes[head as int]);
            assert(dba.insts[hdata as int] == dbr.insts[hdata as int]) by {
                assert(db0.node_wf(head as int));
                assert(hdata < db0.insts.len());
                if kids_data_prefix(dbr, g, hdata) {
                    let m2 = choose|m2: u64|
                        #[trigger] kids_member(dbr, g, m2) && dbr.node(m2).data == hdata;
                    assert(m2 == head) by {
                        lemma_kids_floor(dbr, g, dbr.node(g).kid_nids@.len() as int, m2);
                        if m2 != head {
                            assert(dbr.nodes[m2 as int].data != dbr.nodes[head as int].data);
                        }
                    }
                    assert(kids_member(dbr, g, head));
                }
            }
        }
    }
    assert(node_cleared(fin, head)) by {
        assert(fin.at(fin.node(head).data) == dba.at(dba.node(head).data));
    }
    assert(fin.node(head).parent is None) by {
        assert(dba.nodes[head as int].parent == dbr.nodes[head as int].parent);
    }
    // the moved children keep their own shape
    assert forall|id: Seq<u8>| #[trigger] hkids.contains_key(id) implies fin.nodes[hkids[id] as int].id
        == db0.nodes[hkids[id] as int].id && fin.nodes[hkids[id] as int].data
        == db0.nodes[hkids[id] as int].data && fin.nodes[hkids[id] as int].kid_ids
        == db0.nodes[hkids[id] as int].kid_ids && fin.nodes[hkids[id] as int].kid_nids
        == db0.nodes[hkids[id] as int].kid_nids by {
        let j = choose|j: int| 0 <= j < moved.len() && #[trigger] moved[j].0@ == id;
        let c = moved[j].1;
        assert(c == hkids[id]);
        assert(dba.nodes[c as int] == dbr.nodes[c as int]);
        assert(c != head);
        assert(dbr.nodes[c as int] == db0.nodes[c as int]);
    }
    // parent links move only at the head and the adopted children
    assert forall|m: u64|
        m < db0.nodes.len() && m != head && (forall|id: Seq<u8>|
            #[trigger] hkids.contains_key(id) ==> m != hkids[id]) implies fin.nodes[m as int].parent
        == db0.nodes[m as int].parent by {
        assert(dbr.nodes[m as int].parent == db0.nodes[m as int].parent);
        assert(dba.nodes[m as int].parent == dbr.nodes[m as int].parent);
        if m == g {
        } else {
            assert(forall|j: int| 0 <= j < moved.len() ==> m != #[trigger] moved[j].1) by {
                assert forall|j: int| 0 <= j < moved.len() implies m != #[trigger] moved[j].1 by {
                    if m == moved[j].1 {
                        assert(hkids.contains_key(moved[j].0@));
                        assert(hkids[moved[j].0@] == moved[j].1);
                    }
                }
            }
            assert(fin.nodes[m as int] == dba.nodes[m as int]);
        }
    }
    // everything of the old genesis subtree that was not under a moved
    // child is left cleared
    assert forall|m: u64|
        #[trigger] subtree(db0, g).contains(m) && m != g && (forall|id: Seq<u8>|
            #[trigger] hkids.contains_key(id) ==> !subtree(db0, hkids[id]).contains(m))
        implies node_cleared(fin, m) by {
        lemma_subtree_without_kids(db0, dbr, head, g, m);
        if exists|j: int|
            0 <= j < db0.node(head).kid_nids@.len() && #[trigger] subtree(
                db0,
                db0.node(head).kid_nids@[j],
            ).contains(m) {
            let j = choose|j: int|
                0 <= j < db0.node(head).kid_nids@.len() && #[trigger] subtree(
                    db0,
                    db0.node(head).kid_nids@[j],
                ).contains(m);
            assert(db0.node_wf(head as int));
            lemma_assoc_props(db0.node(head).kid_ids.deep_view(), db0.node(head).kid_nids@);
            let idj = db0.node(head).kid_ids.deep_view()[j];
            assert(hkids.contains_key(idj) && hkids[idj] == db0.node(head).kid_nids@[j]);
            assert(!subtree(db0, hkids[idj]).contains(m));
        } else {
            assert(subtree(dbr, g).contains(m));
            assert(kids_member(dbr, g, m)) by {
                assert(g < dbr.nodes.len());
            }
            assert(node_cleared(dba, m));
            lemma_subtree_floor(db0, g, m);
            assert(forall|j: int| 0 <= j < moved.len() ==> m != #[trigger] moved[j].1) by {
                assert forall|j: int| 0 <= j < moved.len() implies m != #[trigger] moved[j].1 by {
                    if m == moved[j].1 {
                        assert(hkids.contains_key(moved[j].0@));
                        assert(subtree(db0, hkids[moved[j].0@]).contains(m));
                    }
                }
            }
            assert(fin.nodes[m as int] == dba.nodes[m as int]);
            assert(node_cleared(fin, m)) by {
                assert(fin.at(fin.node(m).data) == dba.at(dba.node(m).data));
            }
        }
    }
}

/// Chains collected by walking parents are strictly decreasing throughout.
proof fn lemma_line_decreasing(db: Db, line: Seq<u64>, a: int, b: int)
    requires
        db.wf(),
        0 <= a < b < line.len(),
        forall|i: int| 0 <= i < line.len() ==> db.node_ok(#[trigger] line[i]),
        forall|i: int| 0 <= i < line.len() - 1 ==> line[i + 1] < #[trigger] line[i],
    ensures
        line[b] < line[a],
    decreases b - a,
{
    if b == a + 1 {
    } else {
        lemma_line_decreasing(db, line, a + 1, b);
    }
}

/// A node below a subtree root is never an ancestor of it: members sit at
/// or above the root's index.
proof fn lemma_subtree_floor_not(db: Db, c: u64, n: u64)
    requires
        db.wf(),
        db.node_ok(c),
        n < c,
    ensures
        !subtree(db, c).contains(n),
{
    if subtree(db, c).contains(n) {
        lemma_subtree_floor(db, c, n);
    }
}

} // verus!

verus! {

/// A chain read depends only on the nodes at or below its start and their
/// data instances.
pub proof fn lemma_chain_first_stable(db1: Db, db2: Db, n: u64, k: Seq<u8>)
    requires
        forall|m: u64| m <= n ==> #[trigger] db2.node(m).parent == db1.node(m).parent,
        forall|m: u64| m <= n ==> #[trigger] db2.node(m).data == db1.node(m).data,
        forall|m: u64| m <= n ==> db2.at(#[trigger] db1.node(m).data) == db1.at(db1.node(m).data),
    ensures
        chain_first(db2, n, k) == chain_first(db1, n, k),
    decreases n,
{
    assert(db2.node(n).data == db1.node(n).data);
    assert(db2.at(db1.node(n).data) == db1.at(db1.node(n).data));
    assert(db2.data_of(n) == db1.data_of(n));
    assert(db2.node(n).parent == db1.node(n).parent);
    if !db1.data_of(n).contains_key(k) {
        match db1.node(n).parent {
            Some(p) => {
                if p < n {
                    assert forall|m: u64| m <= p implies #[trigger] db2.node(m).parent == db1.node(
                        m,
                    ).parent by {
                        assert(m <= n);
                    }
                    assert forall|m: u64| m <= p implies #[trigger] db2.node(m).data == db1.node(
                        m,
                    ).data by {
                        assert(m <= n);
                    }
                    assert forall|m: u64|
                        m <= p implies db2.at(#[trigger] db1.node(m).data) == db1.at(
                        db1.node(m).data,
                    ) by {
                        assert(m <= n);
                    }
                    lemma_chain_first_stable(db1, db2, p, k);
                }
            },
            None => {},
        }
    }
}

/// Writing one key into a node's own entries changes chain reads below it
/// at exactly that key.
pub proof fn lemma_chain_first_local_insert(db1: Db, db2: Db, n: u64, k: Seq<u8>, v: Seq<u8>)
    requires
        db1.wf(),
        db1.node_ok(n),
        forall|m: u64| m <= n ==> #[trigger] db2.node(m).parent == db1.node(m).parent,
        forall|m: u64| m <= n ==> #[trigger] db2.node(m).data == db1.node(m).data,
        db2.at(db1.node(n).data) == db1.at(db1.node(n).data).insert(k, v),
        forall|m: u64|
            m < n ==> db2.at(#[trigger] db1.node(m).data) == db1.at(db1.node(m).data),
    ensures
        chain_first(db2, n, k) == Some(v),
        forall|k2: Seq<u8>| k2 != k ==> chain_first(db2, n, k2) == chain_first(db1, n, k2),
{
    assert(db1.node_wf(n as int));
    assert(db2.data_of(n) == db1.data_of(n).insert(k, v));
    assert forall|k2: Seq<u8>| k2 != k implies chain_first(db2, n, k2) == chain_first(
        db1,
        n,
        k2,
    ) by {
        if !db1.data_of(n).contains_key(k2) {
            match db1.node(n).parent {
                Some(p) => {
                    if p < n {
                        assert forall|m: u64|
                            m <= p implies db2.at(#[trigger] db1.node(m).data) == db1.at(
                            db1.node(m).data,
                        ) by {
                            assert(m <= n && m < n);
                        }
                        lemma_chain_first_stable(db1, db2, p, k2);
                    }
                },
                None => {},
            }
        }
    }
}

/// Whether `id` occurs in `targets`.
pub(crate) fn list_contains(targets: &Vec<Vec<u8>>, id: &Vec<u8>) -> (r: bool)
    ensures
        r == targets.deep_view().contains(id@),
{
    let mut i: usize = 0;
    while i < targets.len()
        invariant
            i <= targets@.len(),
            forall|j: int| 0 <= j < i ==> targets.deep_view()[j] != id@,
        decreases targets@.len() - i,
    {
        proof {
            assert(targets@[i as int].deep_view() =~= targets@[i as int]@);
        }
        if bytes_eq(&targets[i], id) {
            proof {
                assert(targets.deep_view()[i as int] == id@);
            }
            return true;
        }
        i += 1;
    }
    proof {
        if targets.deep_view().contains(id@) {
            let j = choose|j: int|
                0 <= j < targets.deep_view().len() && targets.deep_view()[j] == id@;
        }
    }
    false
}

/// An identifier passes the filter: with `exclude` the listed ones stay,
/// without it the listed ones go.
pub open spec fn keep_id(targets: Seq<Seq<u8>>, exclude: bool, id: Seq<u8>) -> bool {
    if exclude {
        targets.contains(id)
    } else {
        !targets.contains(id)
    }
}

} // verus!
verus! {

/// Unregisters the child held under `id`; afterwards that child is
/// registered nowhere.
#[verifier::rlimit(100)]
pub(crate) fn kid_del(db: &mut Db, n: u64, id: &Vec<u8>) -> (r: Option<u64>)
    requires
        old(db).wf(),
        old(db).node_ok(n),
    ensures
        final(db).wf(),
        final(db).insts == old(db).insts,
        final(db).nodes.len() == old(db).nodes.len(),
        forall|m: u64|
            m < old(db).nodes.len() && m != n ==> final(db).nodes[m as int] == old(
                db,
            ).nodes[m as int],
        final(db).node(n).id == old(db).node(n).id,
        final(db).node(n).data == old(db).node(n).data,
        final(db).node(n).parent == old(db).node(n).parent,
        match r {
            Some(c) => {
                &&& old(db).kids(n).contains_key(id@)
                &&& old(db).kids(n)[id@] == c
                &&& n < c < old(db).nodes.len()
                &&& final(db).kids(n) == old(db).kids(n).remove(id@)
                &&& unregistered(*final(db), c)
                &&& forall|c2: u64|
                    #[trigger] unregistered(*old(db), c2) ==> unregistered(*final(db), c2)
            },
            None => !old(db).kids(n).contains_key(id@) && *final(db) == *old(db),
        },
{
    let ghost db0 = *old(db);
    proof {
        assert(db0.node_wf(n as int));
    }
    match kid_find(db, n, id) {
        None => None,
        Some(i) => {
            let node = &mut db.nodes[n as usize];
            let c = node.kid_nids[i];
            node.kid_ids.remove(i);
            node.kid_nids.remove(i);
            proof {
                assert(db.nodes[n as int].kid_ids.deep_view() =~~= db0.node(
                    n,
                ).kid_ids.deep_view().remove(i as int));
                assert(db.nodes[n as int].kid_nids@ =~= db0.node(n).kid_nids@.remove(i as int));
                lemma_assoc_remove(
                    db0.node(n).kid_ids.deep_view(),
                    db0.node(n).kid_nids@,
                    i as int,
                );
                lemma_assoc_props(db0.node(n).kid_ids.deep_view(), db0.node(n).kid_nids@);
                assert forall|x: int| 0 <= x < db.nodes.len() implies db.node_wf(x) by {
                    assert(db0.node_wf(x));
                    if x == n as int {
                        assert(forall|j: int|
                            0 <= j < db.nodes[x].kid_nids@.len() ==> #[trigger] db.nodes[x].kid_nids@[j]
                                == db0.nodes[x].kid_nids@[if j < i { j } else { j + 1 }]);
                    }
                }
                assert(db.kid_slots_injective()) by {
                    assert forall|a: int, x: int, b: int, j: int|
                        0 <= a < db.nodes.len() && 0 <= x < db.nodes[a].kid_nids.len() && 0 <= b
                            < db.nodes.len() && 0 <= j < db.nodes[b].kid_nids.len() && (a != b || x
                            != j) implies #[trigger] db.nodes[a].kid_nids@[x]
                        != #[trigger] db.nodes[b].kid_nids@[j] by {
                        let x0: int = if a == n as int && x >= i {
                            x + 1
                        } else {
                            x
                        };
                        let j0: int = if b == n as int && j >= i {
                            j + 1
                        } else {
                            j
                        };
                        assert(db.nodes[a].kid_nids@[x] == db0.nodes[a].kid_nids@[x0]);
                        assert(db.nodes[b].kid_nids@[j] == db0.nodes[b].kid_nids@[j0]);
                    }
                }
                assert(db.wf());
                assert(unregistered(*db, c)) by {
                    assert forall|a: int, x: int|
                        0 <= a < db.nodes.len() && 0 <= x < db.nodes[a].kid_nids.len()
                            implies #[trigger] db.nodes[a].kid_nids@[x] != c by {
                        let x0: int = if a == n as int && x >= i {
                            x + 1
                        } else {
                            x
                        };
                        assert(db.nodes[a].kid_nids@[x] == db0.nodes[a].kid_nids@[x0]);
                        if a != n as int || x0 != i as int {
                            assert(db0.nodes[a].kid_nids@[x0] != db0.nodes[n as int].kid_nids@[i as int]);
                        }
                    }
                }
                assert forall|c2: u64|
                    #[trigger] unregistered(db0, c2) implies unregistered(*db, c2) by {
                    assert forall|a: int, i2: int|
                        0 <= a < db.nodes.len() && 0 <= i2 < db.nodes[a].kid_nids.len()
                            implies #[trigger] db.nodes[a].kid_nids@[i2] != c2 by {
                        let x0: int = if a == n as int && i2 >= i {
                            i2 + 1
                        } else {
                            i2
                        };
                        assert(db.nodes[a].kid_nids@[i2] == db0.nodes[a].kid_nids@[x0]);
                        assert(db0.nodes[a].kid_nids@[x0] != c2);
                    }
                }
            }
            Some(c)
        },
    }
}

/// A kid-set member lies strictly below the registry owner in the arena.
pub proof fn lemma_kids_floor_pub(db: Db, n: u64, m: u64)
    requires
        db.wf(),
        db.node_ok(n),
        kids_member(db, n, m),
    ensures
        n < m < db.nodes.len(),
{
    lemma_kids_floor(db, n, db.node(n).kid_nids@.len() as int, m);
}

/// A node registered nowhere sits below nothing but itself.
proof fn lemma_unregistered_not_in_subtree(db: Db, r: u64, c: u64)
    requires
        db.wf(),
        db.node_ok(r),
        unregistered(db, c),
        c != r,
    ensures
        !subtree(db, r).contains(c),
{
    if subtree(db, r).contains(c) {
        lemma_subtree_incoming(db, r, c);
        let (x, j2) = choose|x: u64, j2: int|
            #![auto]
            subtree(db, r).contains(x) && x < db.nodes.len() && 0 <= j2 < db.node(
                x,
            ).kid_nids@.len() && db.node(x).kid_nids@[j2] == c;
        assert(db.nodes[x as int].kid_nids@[j2] != c);
    }
}

/// Keeps the children of `n` whose identifiers pass the filter and drops
/// the rest; a dropped child's whole subtree is cleared, and with `cut`
/// its parent links are severed too.
#[verifier::spinoff_prover]
#[verifier::rlimit(100)]
pub(crate) fn prune_kids_filter(
    db: &mut Db,
    n: u64,
    targets: &Vec<Vec<u8>>,
    exclude: bool,
    cut: bool,
)
    requires
        old(db).wf(),
        old(db).node_ok(n),
    ensures
        final(db).wf(),
        final(db).insts.len() == old(db).insts.len(),
        final(db).nodes.len() == old(db).nodes.len(),
        final(db).node(n).id == old(db).node(n).id,
        final(db).node(n).data == old(db).node(n).data,
        final(db).node(n).parent == old(db).node(n).parent,
        forall|id: Seq<u8>|
            #[trigger] final(db).kids(n).contains_key(id) <==> (old(db).kids(n).contains_key(id)
                && keep_id(targets.deep_view(), exclude, id)),
        forall|id: Seq<u8>|
            #[trigger] final(db).kids(n).contains_key(id) ==> final(db).kids(n)[id] == old(
                db,
            ).kids(n)[id],
        forall|id: Seq<u8>|
            #[trigger] old(db).kids(n).contains_key(id) && !keep_id(
                targets.deep_view(),
                exclude,
                id,
            ) ==> node_cleared(*final(db), old(db).kids(n)[id]),
        // a dropped child's whole subtree is cleared
        forall|id: Seq<u8>, m: u64|
            #![trigger old(db).kids(n).contains_key(id), subtree(*old(db), old(db).kids(n)[id]).contains(m)]
            old(db).kids(n).contains_key(id) && !keep_id(targets.deep_view(), exclude, id)
                && subtree(*old(db), old(db).kids(n)[id]).contains(m) ==> node_cleared(
                *final(db),
                m,
            ),
        // the kept children's subtrees are untouched
        forall|id: Seq<u8>, m: u64|
            #![trigger old(db).kids(n).contains_key(id), subtree(*old(db), old(db).kids(n)[id]).contains(m)]
            old(db).kids(n).contains_key(id) && keep_id(targets.deep_view(), exclude, id)
                && subtree(*old(db), old(db).kids(n)[id]).contains(m)
                ==> final(db).nodes[m as int] == old(db).nodes[m as int] && final(db).at(
                old(db).nodes[m as int].data,
            ) == old(db).at(old(db).nodes[m as int].data),
        // the node's own entries are untouched, and so is everything off
        // the dropped subtrees
        final(db).at(old(db).node(n).data) == old(db).at(old(db).node(n).data),
        forall|m: u64|
            m < old(db).nodes.len() && m != n && !filtered_drop_member(
                *old(db),
                n,
                targets.deep_view(),
                exclude,
                m,
            ) ==> final(db).nodes[m as int] == old(db).nodes[m as int],
        forall|p: u64|
            p < old(db).insts.len() && !filtered_drop_prefix(
                *old(db),
                n,
                targets.deep_view(),
                exclude,
                p,
            ) ==> final(db).insts[p as int] == old(db).insts[p as int],
{
    let ghost db0 = *old(db);
    let ghost all = db0.kids(n);
    proof {
        assert(db0.node_wf(n as int));
        lemma_assoc_props(db0.node(n).kid_ids.deep_view(), db0.node(n).kid_nids@);
    }
    // scan the registry and note which children have to go
    let mut victims: Vec<(Vec<u8>, u64)> = Vec::new();
    let node = &db.nodes[n as usize];
    let total = node.kid_ids.len();
    let mut i: usize = 0;
    while i < total
        invariant
            db.wf(),
            *db == db0,
            db0.node_ok(n),
            all == db0.kids(n),
            total == db0.node(n).kid_ids.deep_view().len(),
            node == &db.nodes[n as int],
            i <= total,
            forall|j: int|
                0 <= j < victims@.len() ==> #[trigger] all.contains_key(victims@[j].0@)
                    && all[victims@[j].0@] == victims@[j].1 && !keep_id(
                    targets.deep_view(),
                    exclude,
                    victims@[j].0@,
                ),
            forall|j: int, j2: int|
                0 <= j < j2 < victims@.len() ==> victims@[j].0@ != victims@[j2].0@,
            forall|j: int|
                0 <= j < victims@.len() ==> n < #[trigger] victims@[j].1 && (victims@[j].1 as int)
                    < db0.nodes.len(),
            forall|j: int|
                0 <= j < victims@.len() ==> exists|jj: int|
                    0 <= jj < i && #[trigger] victims@[j].0@ == db0.node(
                        n,
                    ).kid_ids.deep_view()[jj],
            forall|j2: int|
                0 <= j2 < i && !keep_id(
                    targets.deep_view(),
                    exclude,
                    #[trigger] db0.node(n).kid_ids.deep_view()[j2],
                ) ==> exists|j: int|
                    0 <= j < victims@.len() && #[trigger] victims@[j].0@ == db0.node(
                        n,
                    ).kid_ids.deep_view()[j2],
        decreases total - i,
    {
        let idc = bytes_clone(&node.kid_ids[i]);
        proof {
            assert(db0.node(n).kid_ids@[i as int].deep_view() =~= db0.node(n).kid_ids@[i as int]@);
            assert(idc@ == db0.node(n).kid_ids.deep_view()[i as int]);
        }
        let hit = list_contains(targets, &idc);
        let chosen = if exclude {
            !hit
        } else {
            hit
        };
        if chosen {
            let ghost pv = victims@;
            proof {
                assert(db0.node_wf(n as int));
            }
            let cnid = node.kid_nids[i];
            proof {
                lemma_assoc_props(db0.node(n).kid_ids.deep_view(), db0.node(n).kid_nids@);
                assert(all.contains_key(idc@) && all[idc@] == cnid);
            }
            victims.push((idc, cnid));
            proof {
                assert(forall|j: int| 0 <= j < pv.len() ==> victims@[j] == #[trigger] pv[j]);
                assert(victims@[pv.len() as int].0@ == db0.node(n).kid_ids.deep_view()[i as int]);
                assert(victims@[pv.len() as int].1 == cnid);
                assert forall|j: int, j2: int|
                    0 <= j < j2 < victims@.len() implies victims@[j].0@ != victims@[j2].0@ by {
                    if j2 == pv.len() {
                        let jj = choose|jj: int|
                            0 <= jj < i && #[trigger] victims@[j].0@ == db0.node(
                                n,
                            ).kid_ids.deep_view()[jj];
                        assert(db0.node(n).kid_ids.deep_view()[jj] != db0.node(
                            n,
                        ).kid_ids.deep_view()[i as int]);
                    }
                }
            }
        }
        i += 1;
    }
    proof {
        assert forall|id: Seq<u8>|
            #[trigger] all.contains_key(id) && !keep_id(targets.deep_view(), exclude, id)
            implies exists|j: int| 0 <= j < victims@.len() && #[trigger] victims@[j].0@ == id by {
            let j2 = choose|j2: int|
                0 <= j2 < db0.node(n).kid_ids.deep_view().len() && db0.node(
                    n,
                ).kid_ids.deep_view()[j2] == id;
        }
    }
    // unregister and clear each of them
    let mut d: usize = 0;
    while d < victims.len()
        invariant
            db.wf(),
            db0.wf(),
            db0.node_ok(n),
            all == db0.kids(n),
            db.insts.len() == db0.insts.len(),
            db.nodes.len() == db0.nodes.len(),
            d <= victims@.len(),
            db.node(n).id == db0.node(n).id,
            db.node(n).data == db0.node(n).data,
            db.node(n).parent == db0.node(n).parent,
            forall|j: int|
                0 <= j < victims@.len() ==> #[trigger] all.contains_key(victims@[j].0@)
                    && all[victims@[j].0@] == victims@[j].1 && !keep_id(
                    targets.deep_view(),
                    exclude,
                    victims@[j].0@,
                ),
            forall|j: int, j2: int|
                0 <= j < j2 < victims@.len() ==> victims@[j].0@ != victims@[j2].0@,
            forall|id: Seq<u8>|
                #[trigger] all.contains_key(id) && !keep_id(targets.deep_view(), exclude, id)
                    ==> exists|j: int| 0 <= j < victims@.len() && #[trigger] victims@[j].0@ == id,
            forall|id: Seq<u8>|
                #[trigger] db.kids(n).contains_key(id) ==> all.contains_key(id) && db.kids(n)[id]
                    == all[id],
            forall|id: Seq<u8>|
                #[trigger] all.contains_key(id) && !(exists|j: int|
                    0 <= j < d && #[trigger] victims@[j].0@ == id) ==> db.kids(n).contains_key(id),
            forall|j: int| 0 <= j < d ==> !db.kids(n).contains_key(#[trigger] victims@[j].0@),
            forall|j: int| 0 <= j < d ==> node_cleared(*db, #[trigger] victims@[j].1),
            forall|j: int| 0 <= j < d ==> unregistered(*db, #[trigger] victims@[j].1),
            forall|j: int|
                0 <= j < victims@.len() ==> n < #[trigger] victims@[j].1 && (victims@[j].1 as int)
                    < db0.nodes.len(),
            forall|m: u64|
                m < db0.nodes.len() ==> db.nodes[m as int].data == db0.nodes[m as int].data,
            forall|j: int, m: u64|
                0 <= j < d && #[trigger] subtree(db0, victims@[j].1).contains(m) ==> node_cleared(
                    *db,
                    m,
                ),
            forall|j: int, m: u64|
                d <= j < victims@.len() && #[trigger] subtree(db0, victims@[j].1).contains(m)
                    ==> db.nodes[m as int] == db0.nodes[m as int],
            forall|m: u64|
                m < db0.nodes.len() && m != n && !filtered_drop_member(
                    db0,
                    n,
                    targets.deep_view(),
                    exclude,
                    m,
                ) ==> db.nodes[m as int] == db0.nodes[m as int],
            forall|p: u64|
                p < db0.insts.len() && !filtered_drop_prefix(
                    db0,
                    n,
                    targets.deep_view(),
                    exclude,
                    p,
                ) ==> db.insts[p as int] == db0.insts[p as int],
        decreases victims@.len() - d,
    {
        let idc = bytes_clone(&victims[d].0);
        let ghost dbp = *db;
        let popped = kid_del(db, n, &idc);
        match popped {
            Some(c) => {
                let ghost dbq = *db;
                proof {
                    assert(c == all[victims@[d as int].0@]);
                    assert(c == victims@[d as int].1);
                    assert(unregistered(dbq, c));
                    // earlier victims are still registered nowhere
                    assert forall|j: int| 0 <= j < d implies unregistered(
                        dbq,
                        #[trigger] victims@[j].1,
                    ) by {
                        assert(unregistered(dbp, victims@[j].1));
                    }
                }
                raze_node(db, c, cut);
                proof {
                    let ghost dbn = *db;
                    assert(n < c);
                    lemma_subtree_floor_not(dbq, c, n);
                    assert(dbn.nodes[n as int] == dbq.nodes[n as int]);
                    assert(db0.node_wf(n as int));
                    // earlier victims are outside the razed subtree and
                    // stay cleared and unregistered
                    assert forall|j: int| 0 <= j < d + 1 implies node_cleared(
                        dbn,
                        #[trigger] victims@[j].1,
                    ) && unregistered(dbn, victims@[j].1) by {
                        assert(unregistered(dbn, victims@[j].1)) by {
                            assert forall|a: int, i2: int|
                                0 <= a < dbn.nodes.len() && 0 <= i2 < dbn.nodes[a].kid_nids.len()
                                    implies #[trigger] dbn.nodes[a].kid_nids@[i2] != victims@[j].1
                                by {
                                if dbn.nodes[a] == dbq.nodes[a] {
                                    if j < d {
                                        assert(dbq.nodes[a].kid_nids@[i2] != victims@[j].1);
                                    } else {
                                        assert(dbq.nodes[a].kid_nids@[i2] != c);
                                    }
                                } else {
                                    assert(subtree(dbq, c).contains(a as u64));
                                    assert(node_cleared(dbn, a as u64));
                                }
                            }
                        }
                        if j < d {
                            let v = victims@[j].1;
                            if v == c {
                                assert(subtree(dbq, c).contains(c));
                                assert(node_cleared(dbn, v));
                            } else {
                                lemma_unregistered_not_in_subtree(dbq, c, v);
                                assert(dbn.nodes[v as int] == dbq.nodes[v as int]);
                                let p = dbq.node(v).data;
                                assert(dbq.node_wf(v as int));
                                assert(p < dbq.insts.len());
                                assert(dbn.insts[p as int] == dbq.insts[p as int]) by {
                                    if subtree_data_prefix(dbq, c, p) {
                                        let m2 = choose|m2: u64|
                                            #[trigger] subtree(dbq, c).contains(m2) && dbq.node(
                                                m2,
                                            ).data == p;
                                        lemma_subtree_floor(dbq, c, m2);
                                        if m2 != v {
                                            assert(dbq.nodes[m2 as int].data
                                                != dbq.nodes[v as int].data);
                                        }
                                    }
                                }
                            }
                        } else {
                            assert(subtree(dbq, c).contains(c));
                        }
                    }
                    // the registry itself sits outside the razed subtree
                    assert(dbn.kids(n) == dbq.kids(n));
                    // the razed subtree, read in the entry state, is the
                    // one the call cleared
                    assert forall|m: u64| #[trigger] subtree(db0, c).contains(m) implies dbq.nodes[m as int]
                        == db0.nodes[m as int] by {
                        lemma_subtree_floor(db0, c, m);
                    }
                    lemma_subtree_stable(db0, dbq, c);
                    let ghost idd = victims@[d as int].0@;
                    // whole subtrees of processed victims stay cleared
                    assert forall|j: int, m: u64|
                        0 <= j < d + 1 && #[trigger] subtree(db0, victims@[j].1).contains(m)
                        implies node_cleared(dbn, m) by {
                        lemma_subtree_floor(db0, victims@[j].1, m);
                        if j < d {
                            if victims@[j].1 == c {
                                assert(node_cleared(dbn, m));
                            } else {
                                lemma_kids_value_disjoint(db0, n, victims@[j].0@, idd);
                                assert(!subtree(db0, c).contains(m));
                                assert(dbn.nodes[m as int] == dbq.nodes[m as int]);
                                let p = dbq.node(m).data;
                                assert(p == db0.node(m).data);
                                assert(db0.node_wf(m as int));
                                assert(dbn.insts[p as int] == dbq.insts[p as int]) by {
                                    if subtree_data_prefix(dbq, c, p) {
                                        let m2 = choose|m2: u64|
                                            #[trigger] subtree(dbq, c).contains(m2) && dbq.node(
                                                m2,
                                            ).data == p;
                                        lemma_subtree_floor(dbq, c, m2);
                                        if m2 != m {
                                            assert(dbq.nodes[m2 as int].data
                                                != dbq.nodes[m as int].data);
                                        }
                                    }
                                }
                                assert(node_cleared(dbn, m));
                            }
                        } else {
                            assert(subtree(dbq, c).contains(m));
                        }
                    }
                    // unprocessed victims' subtrees remain intact
                    assert forall|j: int, m: u64|
                        d + 1 <= j < victims@.len() && #[trigger] subtree(
                            db0,
                            victims@[j].1,
                        ).contains(m) implies dbn.nodes[m as int] == db0.nodes[m as int] by {
                        lemma_kids_value_disjoint(db0, n, victims@[j].0@, idd);
                        lemma_subtree_floor(db0, victims@[j].1, m);
                        assert(!subtree(db0, c).contains(m));
                        assert(!subtree(dbq, c).contains(m));
                    }
                    // frame: nodes off the dropped subtrees are untouched
                    assert forall|m: u64|
                        m < db0.nodes.len() && m != n && !filtered_drop_member(
                            db0,
                            n,
                            targets.deep_view(),
                            exclude,
                            m,
                        ) implies dbn.nodes[m as int] == db0.nodes[m as int] by {
                        assert(!subtree(db0, c).contains(m)) by {
                            if subtree(db0, c).contains(m) {
                                assert(all.contains_key(idd) && !keep_id(
                                    targets.deep_view(),
                                    exclude,
                                    idd,
                                ) && subtree(db0, db0.kids(n)[idd]).contains(m));
                            }
                        }
                        assert(!subtree(dbq, c).contains(m));
                    }
                    // frame: instances off the dropped subtrees are
                    // untouched
                    assert forall|p: u64|
                        p < db0.insts.len() && !filtered_drop_prefix(
                            db0,
                            n,
                            targets.deep_view(),
                            exclude,
                            p,
                        ) implies dbn.insts[p as int] == db0.insts[p as int] by {
                        assert(dbn.insts[p as int] == dbq.insts[p as int]) by {
                            if subtree_data_prefix(dbq, c, p) {
                                let m2 = choose|m2: u64|
                                    #[trigger] subtree(dbq, c).contains(m2) && dbq.node(m2).data
                                        == p;
                                lemma_subtree_floor(dbq, c, m2);
                                assert(subtree(db0, c).contains(m2));
                                assert(db0.node(m2).data == p);
                                assert(filtered_drop_member(
                                    db0,
                                    n,
                                    targets.deep_view(),
                                    exclude,
                                    m2,
                                )) by {
                                    assert(all.contains_key(idd) && !keep_id(
                                        targets.deep_view(),
                                        exclude,
                                        idd,
                                    ) && subtree(db0, db0.kids(n)[idd]).contains(m2));
                                }
                                assert(filtered_drop_prefix(
                                    db0,
                                    n,
                                    targets.deep_view(),
                                    exclude,
                                    p,
                                ));
                            }
                        }
                    }
                }
            },
            None => {
                proof {
                    assert(db.kids(n).contains_key(victims@[d as int].0@)) by {
                        assert(all.contains_key(victims@[d as int].0@));
                        if exists|j: int| 0 <= j < d && #[trigger] victims@[j].0@ == victims@[d as int].0@ {
                            let j = choose|j: int|
                                0 <= j < d && #[trigger] victims@[j].0@ == victims@[d as int].0@;
                        }
                    }
                    assert(false);
                }
            },
        }
        d += 1;
    }
    proof {
        assert forall|id: Seq<u8>|
            #[trigger] db.kids(n).contains_key(id) implies (all.contains_key(id) && keep_id(
            targets.deep_view(),
            exclude,
            id,
        )) by {
            if !keep_id(targets.deep_view(), exclude, id) {
                let j = choose|j: int| 0 <= j < victims@.len() && #[trigger] victims@[j].0@ == id;
            }
        }
        assert forall|id: Seq<u8>|
            all.contains_key(id) && keep_id(targets.deep_view(), exclude, id) implies #[trigger] db.kids(
            n,
        ).contains_key(id) by {
            if exists|j: int| 0 <= j < victims@.len() && #[trigger] victims@[j].0@ == id {
                let j = choose|j: int| 0 <= j < victims@.len() && #[trigger] victims@[j].0@ == id;
            }
        }
        assert forall|id: Seq<u8>|
            #[trigger] all.contains_key(id) && !keep_id(targets.deep_view(), exclude, id)
            implies node_cleared(*db, all[id]) by {
            let j = choose|j: int| 0 <= j < victims@.len() && #[trigger] victims@[j].0@ == id;
        }
        // dropped subtrees cleared, stated over the registry
        assert forall|id: Seq<u8>, m: u64|
            #![trigger all.contains_key(id), subtree(db0, all[id]).contains(m)]
            all.contains_key(id) && !keep_id(targets.deep_view(), exclude, id) && subtree(
                db0,
                all[id],
            ).contains(m) implies node_cleared(*db, m) by {
            let j = choose|j: int| 0 <= j < victims@.len() && #[trigger] victims@[j].0@ == id;
            assert(victims@[j].1 == all[id]);
            assert(subtree(db0, victims@[j].1).contains(m));
        }
        // kept subtrees untouched
        assert forall|id: Seq<u8>, m: u64|
            #![trigger all.contains_key(id), subtree(db0, all[id]).contains(m)]
            all.contains_key(id) && keep_id(targets.deep_view(), exclude, id) && subtree(
                db0,
                all[id],
            ).contains(m) implies db.nodes[m as int] == db0.nodes[m as int] && db.at(
            db0.nodes[m as int].data,
        ) == db0.at(db0.nodes[m as int].data) by {
            lemma_subtree_floor(db0, all[id], m);
            assert(db0.node_wf(n as int));
            assert(m != n);
            assert(!filtered_drop_member(db0, n, targets.deep_view(), exclude, m)) by {
                if filtered_drop_member(db0, n, targets.deep_view(), exclude, m) {
                    let id2 = choose|id2: Seq<u8>|
                        #[trigger] db0.kids(n).contains_key(id2) && !keep_id(
                            targets.deep_view(),
                            exclude,
                            id2,
                        ) && subtree(db0, db0.kids(n)[id2]).contains(m);
                    lemma_kids_value_disjoint(db0, n, id, id2);
                }
            }
            let p = db0.nodes[m as int].data;
            assert(db0.node_wf(m as int));
            assert(db.insts[p as int] == db0.insts[p as int]) by {
                if filtered_drop_prefix(db0, n, targets.deep_view(), exclude, p) {
                    let m2 = choose|m2: u64|
                        #[trigger] filtered_drop_member(db0, n, targets.deep_view(), exclude, m2)
                            && db0.node(m2).data == p;
                    let id2 = choose|id2: Seq<u8>|
                        #[trigger] db0.kids(n).contains_key(id2) && !keep_id(
                            targets.deep_view(),
                            exclude,
                            id2,
                        ) && subtree(db0, db0.kids(n)[id2]).contains(m2);
                    lemma_subtree_floor(db0, db0.kids(n)[id2], m2);
                    if m2 != m {
                        assert(db0.nodes[m2 as int].data != db0.nodes[m as int].data);
                    } else {
                        lemma_kids_value_disjoint(db0, n, id, id2);
                    }
                }
            }
        }
        // the node's own entries were never part of any dropped subtree
        assert(db.at(db0.node(n).data) == db0.at(db0.node(n).data)) by {
            assert(db0.node_wf(n as int));
            let p = db0.node(n).data;
            if filtered_drop_prefix(db0, n, targets.deep_view(), exclude, p) {
                let m2 = choose|m2: u64|
                    #[trigger] filtered_drop_member(db0, n, targets.deep_view(), exclude, m2)
                        && db0.node(m2).data == p;
                let id2 = choose|id2: Seq<u8>|
                    #[trigger] db0.kids(n).contains_key(id2) && !keep_id(
                        targets.deep_view(),
                        exclude,
                        id2,
                    ) && subtree(db0, db0.kids(n)[id2]).contains(m2);
                lemma_subtree_floor(db0, db0.kids(n)[id2], m2);
                assert(db0.nodes[m2 as int].data != db0.nodes[n as int].data);
            }
        }
    }
}

} // verus!
verus! {

/// `m` lies in a dropped child's subtree of `n`, under the given filter.
pub open spec fn filtered_drop_member(
    db: Db,
    n: u64,
    targets: Seq<Seq<u8>>,
    exclude: bool,
    m: u64,
) -> bool {
    exists|id: Seq<u8>|
        #[trigger] db.kids(n).contains_key(id) && !keep_id(targets, exclude, id) && subtree(
            db,
            db.kids(n)[id],
        ).contains(m)
}

/// `p` is the data instance of some dropped-subtree member of `n`.
pub open spec fn filtered_drop_prefix(
    db: Db,
    n: u64,
    targets: Seq<Seq<u8>>,
    exclude: bool,
    p: u64,
) -> bool {
    exists|m: u64|
        #[trigger] filtered_drop_member(db, n, targets, exclude, m) && db.node(m).data == p
}

/// Children registered under different identifiers head disjoint
/// subtrees.
pub proof fn lemma_kids_value_disjoint(db: Db, n: u64, id1: Seq<u8>, id2: Seq<u8>)
    requires
        db.wf(),
        db.node_ok(n),
        db.kids(n).contains_key(id1),
        db.kids(n).contains_key(id2),
        id1 != id2,
    ensures
        subtree(db, db.kids(n)[id1]).disjoint(subtree(db, db.kids(n)[id2])),
{
    assert(db.node_wf(n as int));
    lemma_assoc_props(db.node(n).kid_ids.deep_view(), db.node(n).kid_nids@);
    let s1 = choose|s1: int|
        0 <= s1 < db.node(n).kid_ids.deep_view().len() && db.node(n).kid_ids.deep_view()[s1]
            == id1;
    let s2 = choose|s2: int|
        0 <= s2 < db.node(n).kid_ids.deep_view().len() && db.node(n).kid_ids.deep_view()[s2]
            == id2;
    assert(db.kids(n)[id1] == db.node(n).kid_nids@[s1]);
    assert(db.kids(n)[id2] == db.node(n).kid_nids@[s2]);
    assert(s1 != s2);
    lemma_sibling_disjoint(db, n, s1, s2);
}

/// Emptying one node's child registry can only drop subtree members that
/// sat below one of that node's registered children.
pub proof fn lemma_subtree_without_kids(db1: Db, db2: Db, cut: u64, n: u64, m: u64)
    requires
        db1.wf(),
        db1.node_ok(n),
        db1.node_ok(cut),
        db2.nodes.len() == db1.nodes.len(),
        db2.node(cut).kid_nids@.len() == 0,
        forall|x: u64|
            x < db1.nodes.len() && x != cut ==> db2.nodes[x as int].kid_ids == db1.nodes[x as int].kid_ids
                && db2.nodes[x as int].kid_nids == db1.nodes[x as int].kid_nids,
        subtree(db1, n).contains(m),
    ensures
        subtree(db2, n).contains(m) || exists|j: int|
            0 <= j < db1.node(cut).kid_nids@.len() && #[trigger] subtree(
                db1,
                db1.node(cut).kid_nids@[j],
            ).contains(m),
    decreases db1.nodes.len() - n,
{
    assert(db1.node_wf(n as int));
    if m == n {
        assert(subtree(db2, n).contains(n));
    } else {
        lemma_kids_member(db1, n, db1.node(n).kid_nids@.len() as int, m);
        let j0 = choose|j0: int|
            0 <= j0 < db1.node(n).kid_nids@.len() && #[trigger] subtree(
                db1,
                db1.node(n).kid_nids@[j0],
            ).contains(m);
        let kid = db1.node(n).kid_nids@[j0];
        if n == cut {
            assert(subtree(db1, db1.node(cut).kid_nids@[j0]).contains(m));
        } else {
            lemma_kid_subtree(db1, n, j0);
            lemma_subtree_self(db1, kid);
            lemma_subtree_floor(db1, n, kid);
            lemma_subtree_without_kids(db1, db2, cut, kid, m);
            if subtree(db2, kid).contains(m) {
                assert(db2.node(n).kid_nids@ == db1.node(n).kid_nids@);
                assert(db2.node(n).kid_nids@[j0] == kid);
                lemma_kid_subtree_upto_pub(db2, n, j0, db2.node(n).kid_nids@.len() as int);
                assert(kids_subtrees(db2, n, db2.node(n).kid_nids@.len() as int).contains(m));
                assert(subtree(db2, n).contains(m));
            }
        }
    }
}

/// A child's subtree sits inside its parent's kid set, without asking for
/// the whole store to be well-formed around the parent.
pub proof fn lemma_kid_subtree_upto_pub(db: Db, n: u64, j: int, m: int)
    requires
        db.node_ok(n),
        0 <= j < m,
        m <= db.node(n).kid_nids@.len(),
        n < db.node(n).kid_nids@[j],
        (db.node(n).kid_nids@[j] as int) < db.nodes.len(),
    ensures
        subtree(db, db.node(n).kid_nids@[j]).subset_of(kids_subtrees(db, n, m)),
    decreases m,
{
    if j < m - 1 {
        lemma_kid_subtree_upto_pub(db, n, j, m - 1);
    } else {
        assert(kids_subtrees(db, n, m) == kids_subtrees(db, n, m - 1).union(
            subtree(db, db.node(n).kid_nids@[j]),
        ));
    }
}

} // verus!
