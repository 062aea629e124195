//! Directed paths over a connection registry, and the facts about them that
//! the graph engine relies on.

use crate::graph::NodeConnection;
use vstd::prelude::*;

verus! {

/// Some connection of `conns` runs from node `a` to node `b`.
pub open spec fn linked(conns: Map<u128, NodeConnection>, a: u128, b: u128) -> bool {
    exists|c: u128|
        #![trigger conns[c]]
        conns.contains_key(c) && conns[c].from_node.0 == a && conns[c].to_node.0 == b
}

/// `p` is a non-empty walk along connections of `conns`.
pub open spec fn is_path(conns: Map<u128, NodeConnection>, p: Seq<u128>) -> bool {
    &&& p.len() >= 1
    &&& forall|i: int| 0 <= i < p.len() - 1 ==> linked(conns, #[trigger] p[i], p[i + 1])
}

/// Node `b` can be reached from node `a` (every node reaches itself).
pub open spec fn reaches(conns: Map<u128, NodeConnection>, a: u128, b: u128) -> bool {
    exists|p: Seq<u128>| is_path(conns, p) && p[0] == a && p.last() == b
}

/// No connection closes a directed cycle: the source of a connection is never
/// reachable from its target.
pub open spec fn acyclic(conns: Map<u128, NodeConnection>) -> bool {
    forall|c: u128|
        #[trigger] conns.contains_key(c) ==> !reaches(conns, conns[c].to_node.0, conns[c].from_node.0)
}

/// Node `v` lies downstream of `n` along a walk whose nodes strictly between
/// `n` and `v` are all outside `dirty`.
pub open spec fn spread(conns: Map<u128, NodeConnection>, dirty: Set<u128>, n: u128, v: u128) -> bool {
    exists|p: Seq<u128>|
        {
            &&& is_path(conns, p)
            &&& p.len() >= 2
            &&& p[0] == n
            &&& p.last() == v
            &&& forall|k: int| 1 <= k < p.len() - 1 ==> !dirty.contains(#[trigger] p[k])
        }
}

/// The dirty set after marking `n` dirty: `n` itself, and every node that the
/// mark reaches before stopping at nodes that were already dirty.
pub open spec fn marked(conns: Map<u128, NodeConnection>, dirty: Set<u128>, n: u128) -> Set<u128> {
    dirty.insert(n).union(Set::new(|v: u128| spread(conns, dirty, n, v)))
}

pub proof fn lemma_reaches_self(conns: Map<u128, NodeConnection>, a: u128)
    ensures
        reaches(conns, a, a),
{
    let p = seq![a];
    assert(is_path(conns, p) && p[0] == a && p.last() == a);
}

pub proof fn lemma_reaches_step(conns: Map<u128, NodeConnection>, a: u128, b: u128, c: u128)
    requires
        reaches(conns, a, b),
        linked(conns, b, c),
    ensures
        reaches(conns, a, c),
{
    let p = choose|p: Seq<u128>| is_path(conns, p) && p[0] == a && p.last() == b;
    let q = p.push(c);
    assert forall|i: int| 0 <= i < q.len() - 1 implies linked(conns, #[trigger] q[i], q[i + 1]) by {
        if i < p.len() - 1 {
            assert(q[i] == p[i] && q[i + 1] == p[i + 1]);
        } else {
            assert(q[i] == b && q[i + 1] == c);
        }
    }
    assert(is_path(conns, q) && q[0] == a && q.last() == c);
}

pub proof fn lemma_reaches_trans(conns: Map<u128, NodeConnection>, a: u128, b: u128, c: u128)
    requires
        reaches(conns, a, b),
        reaches(conns, b, c),
    ensures
        reaches(conns, a, c),
{
    let q = choose|q: Seq<u128>| is_path(conns, q) && q[0] == b && q.last() == c;
    lemma_reaches_prefix(conns, a, q, q.len() as int);
}

/// Walking the first `n` nodes of a path that starts at a node reachable from `a`.
proof fn lemma_reaches_prefix(conns: Map<u128, NodeConnection>, a: u128, q: Seq<u128>, n: int)
    requires
        is_path(conns, q),
        1 <= n <= q.len(),
        reaches(conns, a, q[0]),
    ensures
        reaches(conns, a, q[n - 1]),
    decreases n,
{
    if n > 1 {
        lemma_reaches_prefix(conns, a, q, n - 1);
        assert(linked(conns, q[n - 2], q[n - 1]));
        lemma_reaches_step(conns, a, q[n - 2], q[n - 1]);
    }
}

/// A path over a sub-registry is a path over the whole registry.
pub proof fn lemma_reaches_submap(
    small: Map<u128, NodeConnection>,
    big: Map<u128, NodeConnection>,
    a: u128,
    b: u128,
)
    requires
        small.submap_of(big),
        reaches(small, a, b),
    ensures
        reaches(big, a, b),
{
    let p = choose|p: Seq<u128>| is_path(small, p) && p[0] == a && p.last() == b;
    assert forall|i: int| 0 <= i < p.len() - 1 implies linked(big, #[trigger] p[i], p[i + 1]) by {
        assert(linked(small, p[i], p[i + 1]));
        let c = choose|c: u128|
            small.contains_key(c) && small[c].from_node.0 == p[i] && small[c].to_node.0 == p[i + 1];
        assert(small.dom().contains(c));
        assert(big.contains_key(c) && big[c] == small[c]);
    }
    assert(is_path(big, p));
}

pub proof fn lemma_acyclic_submap(small: Map<u128, NodeConnection>, big: Map<u128, NodeConnection>)
    requires
        small.submap_of(big),
        acyclic(big),
    ensures
        acyclic(small),
{
    assert forall|c: u128| #[trigger] small.contains_key(c) implies !reaches(
        small,
        small[c].to_node.0,
        small[c].from_node.0,
    ) by {
        assert(big.contains_key(c));
        if reaches(small, small[c].to_node.0, small[c].from_node.0) {
            lemma_reaches_submap(small, big, small[c].to_node.0, small[c].from_node.0);
        }
    }
}

/// The mark spreads one connection further from a node it has reached.
pub proof fn lemma_spread_step(
    conns: Map<u128, NodeConnection>,
    dirty: Set<u128>,
    n: u128,
    a: u128,
    b: u128,
)
    requires
        a == n || (spread(conns, dirty, n, a) && !dirty.contains(a)),
        linked(conns, a, b),
    ensures
        spread(conns, dirty, n, b),
{
    if a == n {
        let p = seq![n, b];
        assert(is_path(conns, p) && p.len() >= 2 && p[0] == n && p.last() == b);
    } else {
        let p = choose|p: Seq<u128>|
            {
                &&& is_path(conns, p)
                &&& p.len() >= 2
                &&& p[0] == n
                &&& p.last() == a
                &&& forall|k: int| 1 <= k < p.len() - 1 ==> !dirty.contains(#[trigger] p[k])
            };
        let q = p.push(b);
        assert forall|i: int| 0 <= i < q.len() - 1 implies linked(conns, #[trigger] q[i], q[i + 1]) by {
            if i < p.len() - 1 {
                assert(q[i] == p[i] && q[i + 1] == p[i + 1]);
            } else {
                assert(q[i] == a && q[i + 1] == b);
            }
        }
        assert forall|k: int| 1 <= k < q.len() - 1 implies !dirty.contains(#[trigger] q[k]) by {
            if k < p.len() - 1 {
                assert(q[k] == p[k]);
            } else {
                assert(q[k] == a);
            }
        }
        assert(is_path(conns, q) && q.len() >= 2 && q[0] == n && q.last() == b);
    }
}

/// A walk over the registry extended by connection `cid` either avoids the new
/// connection or passes through it from its source to its target.
proof fn lemma_walk_with_new(
    small: Map<u128, NodeConnection>,
    cid: u128,
    conn: NodeConnection,
    p: Seq<u128>,
    n: int,
)
    requires
        !small.contains_key(cid),
        is_path(small.insert(cid, conn), p),
        1 <= n <= p.len(),
    ensures
        reaches(small, p[0], p[n - 1]) || (reaches(small, p[0], conn.from_node.0) && reaches(
            small,
            conn.to_node.0,
            p[n - 1],
        )),
    decreases n,
{
    let big = small.insert(cid, conn);
    if n == 1 {
        lemma_reaches_self(small, p[0]);
    } else {
        lemma_walk_with_new(small, cid, conn, p, n - 1);
        assert(linked(big, p[n - 2], p[n - 1]));
        let c = choose|c: u128|
            big.contains_key(c) && big[c].from_node.0 == p[n - 2] && big[c].to_node.0 == p[n - 1];
        if c == cid {
            lemma_reaches_self(small, conn.to_node.0);
        } else {
            assert(small.contains_key(c) && small[c] == big[c]);
            assert(linked(small, p[n - 2], p[n - 1]));
            if reaches(small, p[0], p[n - 2]) {
                lemma_reaches_step(small, p[0], p[n - 2], p[n - 1]);
            } else {
                lemma_reaches_step(small, conn.to_node.0, p[n - 2], p[n - 1]);
            }
        }
    }
}

/// Adding a connection whose source is not reachable from its target keeps
/// the registry free of cycles.
pub proof fn lemma_acyclic_insert(small: Map<u128, NodeConnection>, cid: u128, conn: NodeConnection)
    requires
        acyclic(small),
        !small.contains_key(cid),
        !reaches(small, conn.to_node.0, conn.from_node.0),
    ensures
        acyclic(small.insert(cid, conn)),
{
    let big = small.insert(cid, conn);
    assert forall|c: u128| #[trigger] big.contains_key(c) implies !reaches(
        big,
        big[c].to_node.0,
        big[c].from_node.0,
    ) by {
        let x = big[c].to_node.0;
        let y = big[c].from_node.0;
        if reaches(big, x, y) {
            let p = choose|p: Seq<u128>| is_path(big, p) && p[0] == x && p.last() == y;
            lemma_walk_with_new(small, cid, conn, p, p.len() as int);
            if c != cid {
                assert(small.contains_key(c) && small[c] == big[c]);
                assert(linked(small, y, x));
                if reaches(small, x, conn.from_node.0) && reaches(small, conn.to_node.0, y) {
                    lemma_reaches_step(small, conn.to_node.0, y, x);
                    lemma_reaches_trans(small, conn.to_node.0, x, conn.from_node.0);
                }
            }
        }
    }
}

} // verus!
